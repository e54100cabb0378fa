//! The cookie record and its one-line text form: `name=value`, then the
//! attributes that are set, each after `"; "`.

use vstd::prelude::*;
use vstd::string::*;
use vstd::pervasive::unreached;
use crate::text::{
    decimal, free_of, is_digit, is_space, is_word, lemma_decimal_digits,
    lemma_decimal_round_trip, lemma_flag_pieces, lemma_pair_pieces, lemma_split_first,
    lemma_split_last, lemma_split_none, lemma_trim_none, parse_i32, parse_int, push_decimal,
    split, split_text, texts, trim_text, trimmed, word_is,
};

verus! {

/// The `SameSite` attribute of a cookie.
#[derive(Debug, Clone, Copy, PartialEq, Eq, Structural)]
pub enum SameSite {
    DefaultMode,
    LaxMode,
    StrictMode,
    NoneMode,
}

/// Why a cookie line cannot be read at all.
#[derive(Debug, Clone, Copy, PartialEq, Eq, Structural)]
pub enum CookieError {
    /// A `Max-Age` attribute whose value is no 32-bit number.
    MalformedMaxAge,
}

/// A cookie with its attributes.
#[derive(Debug, Clone)]
pub struct Cookie {
    name: String,
    value: String,
    path: String,
    domain: String,
    raw_expires: String,
    max_age: i32,
    secure: bool,
    http_only: bool,
    same_site: SameSite,
}

/// What a cookie holds.
pub struct CookieView {
    pub name: Seq<char>,
    pub value: Seq<char>,
    pub path: Seq<char>,
    pub domain: Seq<char>,
    pub raw_expires: Seq<char>,
    pub max_age: i32,
    pub secure: bool,
    pub http_only: bool,
    pub same_site: SameSite,
}

/// What reading a cookie line gives.
pub enum CookieText {
    /// The line does not start with one `name=value` pair.
    Absent,
    /// The line starts well but holds a `Max-Age` that is no number.
    Malformed,
    /// The cookie that the line describes.
    Record(CookieView),
}

impl View for Cookie {
    type V = CookieView;

    closed spec fn view(&self) -> CookieView {
        CookieView {
            name: self.name@,
            value: self.value@,
            path: self.path@,
            domain: self.domain@,
            raw_expires: self.raw_expires@,
            max_age: self.max_age,
            secure: self.secure,
            http_only: self.http_only,
            same_site: self.same_site,
        }
    }
}

/// The cookie that has a name and a value and every attribute unset.
pub open spec fn bare_cookie(name: Seq<char>, value: Seq<char>) -> CookieView {
    CookieView {
        name,
        value,
        path: Seq::empty(),
        domain: Seq::empty(),
        raw_expires: Seq::empty(),
        max_age: 0,
        secure: false,
        http_only: false,
        same_site: SameSite::DefaultMode,
    }
}

/// A text attribute as it stands in the line: nothing where it is unset.
pub open spec fn text_attr(label: Seq<char>, value: Seq<char>) -> Seq<char> {
    if value.len() > 0 {
        label + value
    } else {
        Seq::empty()
    }
}

/// The `Max-Age` attribute as it stands in the line: the number in base ten
/// where it is positive, nothing otherwise.
pub open spec fn max_age_attr(max_age: i32) -> Seq<char> {
    if max_age > 0 {
        "; Max-Age="@ + decimal(max_age as int)
    } else {
        Seq::empty()
    }
}

/// A flag as it stands in the line.
pub open spec fn flag_attr(label: Seq<char>, set: bool) -> Seq<char> {
    if set {
        label
    } else {
        Seq::empty()
    }
}

/// The `SameSite` attribute as it stands in the line: nothing for the default
/// mode.
pub open spec fn same_site_attr(mode: SameSite) -> Seq<char> {
    match mode {
        SameSite::DefaultMode => Seq::empty(),
        SameSite::LaxMode => "; SameSite=Lax"@,
        SameSite::StrictMode => "; SameSite=Strict"@,
        SameSite::NoneMode => "; SameSite=None"@,
    }
}

/// The line of a cookie.
pub open spec fn cookie_line(c: CookieView) -> Seq<char> {
    c.name + "="@ + c.value + text_attr("; Path="@, c.path) + text_attr("; Domain="@, c.domain)
        + text_attr("; Expires="@, c.raw_expires) + max_age_attr(c.max_age) + flag_attr(
        "; Secure"@,
        c.secure,
    ) + flag_attr("; HttpOnly"@, c.http_only) + same_site_attr(c.same_site)
}

/// The mode that a `SameSite` value names; the default mode for any other
/// value.
pub open spec fn same_site_of(value: Seq<char>) -> SameSite {
    if is_word(value, "lax"@) {
        SameSite::LaxMode
    } else if is_word(value, "strict"@) {
        SameSite::StrictMode
    } else if is_word(value, "none"@) {
        SameSite::NoneMode
    } else {
        SameSite::DefaultMode
    }
}

/// The cookie after an attribute `key=value`. An unknown key changes
/// nothing; `None` where the key is `max-age` and the value is no number.
pub open spec fn with_pair(c: CookieView, key: Seq<char>, value: Seq<char>) -> Option<CookieView> {
    if is_word(key, "path"@) {
        Some(CookieView { path: value, ..c })
    } else if is_word(key, "domain"@) {
        Some(CookieView { domain: value, ..c })
    } else if is_word(key, "expires"@) {
        Some(CookieView { raw_expires: value, ..c })
    } else if is_word(key, "max-age"@) {
        match parse_int(value) {
            Some(n) => Some(CookieView { max_age: n as i32, ..c }),
            None => None,
        }
    } else if is_word(key, "secure"@) {
        Some(CookieView { secure: true, ..c })
    } else if is_word(key, "httponly"@) {
        Some(CookieView { http_only: true, ..c })
    } else if is_word(key, "samesite"@) {
        Some(CookieView { same_site: same_site_of(value), ..c })
    } else {
        Some(c)
    }
}

/// The cookie after an attribute that is a single word.
pub open spec fn with_flag(c: CookieView, word: Seq<char>) -> CookieView {
    if is_word(word, "secure"@) {
        CookieView { secure: true, ..c }
    } else if is_word(word, "httponly"@) {
        CookieView { http_only: true, ..c }
    } else {
        c
    }
}

/// The cookie after one segment of the line: a pair, a flag, or something
/// that is neither and changes nothing.
pub open spec fn with_segment(c: CookieView, segment: Seq<char>) -> Option<CookieView> {
    let kv = split(trimmed(segment), "="@);
    if kv.len() == 2 {
        with_pair(c, kv[0], kv[1])
    } else if kv.len() == 1 {
        Some(with_flag(c, kv[0]))
    } else {
        Some(c)
    }
}

/// The cookie after the segments in their order; `None` as soon as one of
/// them is a `max-age` without a number.
pub open spec fn with_segments(c: CookieView, segments: Seq<Seq<char>>) -> Option<CookieView>
    decreases segments.len(),
{
    if segments.len() == 0 {
        Some(c)
    } else {
        match with_segment(c, segments[0]) {
            Some(next) => with_segments(next, segments.drop_first()),
            None => None,
        }
    }
}

/// What a cookie line reads as. The segments are the pieces between `;`. The
/// first one, trimmed, must hold exactly one `=`, with the name before it and
/// the value behind; the others are attributes.
pub open spec fn read_line(line: Seq<char>) -> CookieText {
    let segments = split(line, ";"@);
    let kv = split(trimmed(segments[0]), "="@);
    if kv.len() != 2 {
        CookieText::Absent
    } else {
        match with_segments(bare_cookie(kv[0], kv[1]), segments.subrange(1, segments.len() as int)) {
            Some(c) => CookieText::Record(c),
            None => CookieText::Malformed,
        }
    }
}

/// What the cookies hold.
pub open spec fn cookie_views(cookies: Seq<Cookie>) -> Seq<CookieView> {
    Seq::new(cookies.len(), |i: int| cookies[i]@)
}

/// The cookies `found` and, behind them, those that the lines give in their
/// order. A line that gives none is passed over; `None` as soon as a line
/// holds a malformed `Max-Age`.
pub open spec fn read_lines(found: Seq<CookieView>, lines: Seq<Seq<char>>) -> Option<
    Seq<CookieView>,
>
    decreases lines.len(),
{
    if lines.len() == 0 {
        Some(found)
    } else {
        match read_line(lines[0]) {
            CookieText::Absent => read_lines(found, lines.drop_first()),
            CookieText::Malformed => None,
            CookieText::Record(c) => read_lines(found.push(c), lines.drop_first()),
        }
    }
}

fn push_text_attr(out: &mut String, label: &str, value: &str)
    ensures
        final(out)@ == old(out)@ + text_attr(label@, value@),
{
    let ghost before = out@;
    if !value.is_empty() {
        out.append(label);
        out.append(value);
    }
    assert(out@ =~= before + text_attr(label@, value@));
}

fn push_flag_attr(out: &mut String, label: &str, set: bool)
    ensures
        final(out)@ == old(out)@ + flag_attr(label@, set),
{
    let ghost before = out@;
    if set {
        out.append(label);
    }
    assert(out@ =~= before + flag_attr(label@, set));
}

impl Default for Cookie {
    /// A cookie with an empty name and value and no attribute set.
    fn default() -> (c: Self)
        ensures
            c@ == bare_cookie(Seq::empty(), Seq::empty()),
    {
        Cookie {
            name: String::new(),
            value: String::new(),
            path: String::new(),
            domain: String::new(),
            raw_expires: String::new(),
            max_age: 0,
            secure: false,
            http_only: false,
            same_site: SameSite::DefaultMode,
        }
    }
}

impl Cookie {
    /// The name.
    pub fn get_name(&self) -> (r: &str)
        ensures
            r@ == self@.name,
    {
        self.name.as_str()
    }

    /// Gives the cookie another name.
    pub fn set_name(&mut self, name: String)
        ensures
            final(self)@ == (CookieView { name: name@, ..old(self)@ }),
    {
        self.name = name;
    }

    /// The value.
    pub fn get_value(&self) -> (r: &str)
        ensures
            r@ == self@.value,
    {
        self.value.as_str()
    }

    /// Gives the cookie another value.
    pub fn set_value(&mut self, value: String)
        ensures
            final(self)@ == (CookieView { value: value@, ..old(self)@ }),
    {
        self.value = value;
    }

    /// The `Path` attribute; empty where it is unset.
    pub fn get_path(&self) -> (r: &str)
        ensures
            r@ == self@.path,
    {
        self.path.as_str()
    }

    /// Sets the `Path` attribute.
    pub fn set_path(&mut self, path: String)
        ensures
            final(self)@ == (CookieView { path: path@, ..old(self)@ }),
    {
        self.path = path;
    }

    /// The `Domain` attribute; empty where it is unset.
    pub fn get_domain(&self) -> (r: &str)
        ensures
            r@ == self@.domain,
    {
        self.domain.as_str()
    }

    /// Sets the `Domain` attribute.
    pub fn set_domain(&mut self, domain: String)
        ensures
            final(self)@ == (CookieView { domain: domain@, ..old(self)@ }),
    {
        self.domain = domain;
    }

    /// The `Expires` attribute as it was written; empty where it is unset.
    pub fn get_raw_expires(&self) -> (r: &str)
        ensures
            r@ == self@.raw_expires,
    {
        self.raw_expires.as_str()
    }

    /// Sets the `Expires` attribute.
    pub fn set_raw_expires(&mut self, raw_expires: String)
        ensures
            final(self)@ == (CookieView { raw_expires: raw_expires@, ..old(self)@ }),
    {
        self.raw_expires = raw_expires;
    }

    /// The `Max-Age` attribute in seconds; zero where it is unset.
    pub fn get_max_age(&self) -> (r: i32)
        ensures
            r == self@.max_age,
    {
        self.max_age
    }

    /// Sets the `Max-Age` attribute.
    pub fn set_max_age(&mut self, age: i32)
        ensures
            final(self)@ == (CookieView { max_age: age, ..old(self)@ }),
    {
        self.max_age = age;
    }

    /// Whether the `Secure` flag is set.
    pub fn get_secure(&self) -> (r: bool)
        ensures
            r == self@.secure,
    {
        self.secure
    }

    /// Sets or clears the `Secure` flag.
    pub fn set_secure(&mut self, secure: bool)
        ensures
            final(self)@ == (CookieView { secure: secure, ..old(self)@ }),
    {
        self.secure = secure;
    }

    /// Whether the `HttpOnly` flag is set.
    pub fn get_http_only(&self) -> (r: bool)
        ensures
            r == self@.http_only,
    {
        self.http_only
    }

    /// Sets or clears the `HttpOnly` flag.
    pub fn set_http_only(&mut self, val: bool)
        ensures
            final(self)@ == (CookieView { http_only: val, ..old(self)@ }),
    {
        self.http_only = val;
    }

    /// The `SameSite` mode.
    pub fn get_same_site(&self) -> (r: &SameSite)
        ensures
            *r == self@.same_site,
    {
        &self.same_site
    }

    /// Sets the `SameSite` mode.
    pub fn set_same_site(&mut self, val: SameSite)
        ensures
            final(self)@ == (CookieView { same_site: val, ..old(self)@ }),
    {
        self.same_site = val;
    }

    /// Writes the cookie as one line. The name must not be empty.
    pub fn marshal(&self) -> (line: String)
        requires
            self@.name.len() > 0,
        ensures
            line@ == cookie_line(self@),
            comes_back(self@) ==> read_line(line@) == CookieText::Record(self@),
    {
        let mut out = String::new();
        out.append(self.name.as_str());
        out.append("=");
        out.append(self.value.as_str());
        push_text_attr(&mut out, "; Path=", self.path.as_str());
        push_text_attr(&mut out, "; Domain=", self.domain.as_str());
        push_text_attr(&mut out, "; Expires=", self.raw_expires.as_str());
        let ghost before = out@;
        if self.max_age > 0 {
            out.append("; Max-Age=");
            push_decimal(&mut out, self.max_age as u32);
        }
        assert(out@ =~= before + max_age_attr(self.max_age));
        push_flag_attr(&mut out, "; Secure", self.secure);
        push_flag_attr(&mut out, "; HttpOnly", self.http_only);
        let ghost before = out@;
        match self.same_site {
            SameSite::DefaultMode => {},
            SameSite::LaxMode => out.append("; SameSite=Lax"),
            SameSite::StrictMode => out.append("; SameSite=Strict"),
            SameSite::NoneMode => out.append("; SameSite=None"),
        }
        assert(out@ =~= before + same_site_attr(self.same_site));
        assert(out@ =~= cookie_line(self@));
        proof {
            if comes_back(self@) {
                lemma_cookie_round_trip(self@);
            }
        }
        out
    }

    fn apply_pair(&mut self, key: &str, value: &str) -> (ok: bool)
        ensures
            ok ==> with_pair(old(self)@, key@, value@) == Some(final(self)@),
            !ok ==> with_pair(old(self)@, key@, value@) is None,
    {
        if word_is(key, "path") {
            self.path = String::from_str(value);
        } else if word_is(key, "domain") {
            self.domain = String::from_str(value);
        } else if word_is(key, "expires") {
            self.raw_expires = String::from_str(value);
        } else if word_is(key, "max-age") {
            match parse_i32(value) {
                Some(n) => {
                    self.max_age = n;
                },
                None => {
                    return false;
                },
            }
        } else if word_is(key, "secure") {
            self.secure = true;
        } else if word_is(key, "httponly") {
            self.http_only = true;
        } else if word_is(key, "samesite") {
            if word_is(value, "lax") {
                self.same_site = SameSite::LaxMode;
            } else if word_is(value, "strict") {
                self.same_site = SameSite::StrictMode;
            } else if word_is(value, "none") {
                self.same_site = SameSite::NoneMode;
            } else {
                self.same_site = SameSite::DefaultMode;
            }
        }
        true
    }

    fn apply_flag(&mut self, word: &str)
        ensures
            final(self)@ == with_flag(old(self)@, word@),
    {
        if word_is(word, "secure") {
            self.secure = true;
        } else if word_is(word, "httponly") {
            self.http_only = true;
        }
    }

    fn apply_segment(&mut self, segment: &str) -> (ok: bool)
        ensures
            ok ==> with_segment(old(self)@, segment@) == Some(final(self)@),
            !ok ==> with_segment(old(self)@, segment@) is None,
    {
        proof {
            reveal_strlit("=");
        }
        let t = trim_text(segment);
        let kv = split_text(t.as_str(), "=");
        assert(texts(kv@).len() == kv@.len());
        if kv.len() == 2 {
            assert(texts(kv@)[0] == kv@[0]@ && texts(kv@)[1] == kv@[1]@);
            self.apply_pair(kv[0].as_str(), kv[1].as_str())
        } else if kv.len() == 1 {
            assert(texts(kv@)[0] == kv@[0]@);
            self.apply_flag(kv[0].as_str());
            true
        } else {
            true
        }
    }

    /// Reads a cookie line: `Ok(None)` where it does not start with one
    /// `name=value` pair, the error where a `Max-Age` holds no number, the
    /// cookie otherwise.
    pub fn parse(line: &str) -> (r: Result<Option<Cookie>, CookieError>)
        ensures
            match r {
                Ok(None) => read_line(line@) is Absent,
                Ok(Some(c)) => read_line(line@) == CookieText::Record(c@),
                Err(e) => read_line(line@) is Malformed,
            },
    {
        proof {
            reveal_strlit("=");
            reveal_strlit(";");
        }
        let parts = split_text(line, ";");
        let ghost segments = split(line@, ";"@);
        assert(texts(parts@).len() == parts@.len());
        assert(texts(parts@)[0] == parts@[0]@);
        let first = trim_text(parts[0].as_str());
        let kv = split_text(first.as_str(), "=");
        assert(texts(kv@).len() == kv@.len());
        if kv.len() != 2 {
            return Ok(None);
        }
        assert(texts(kv@)[0] == kv@[0]@ && texts(kv@)[1] == kv@[1]@);
        let mut c = Cookie::default();
        c.set_name(kv[0].clone());
        c.set_value(kv[1].clone());
        let ghost base = c@;
        assert(base == bare_cookie(kv@[0]@, kv@[1]@));
        let n: usize = parts.len();
        let mut i: usize = 1;
        while i < n
            invariant
                1 <= i <= n,
                n == parts@.len(),
                segments == texts(parts@),
                read_line(line@) == (match with_segments(base, segments.subrange(1, n as int)) {
                    Some(c) => CookieText::Record(c),
                    None => CookieText::Malformed,
                }),
                with_segments(base, segments.subrange(1, n as int)) == with_segments(
                    c@,
                    segments.subrange(i as int, n as int),
                ),
            decreases n - i,
        {
            let ghost rest = segments.subrange(i as int, n as int);
            assert(rest[0] == parts@[i as int]@);
            assert(rest.drop_first() =~= segments.subrange(i + 1, n as int));
            let ok = c.apply_segment(parts[i].as_str());
            if !ok {
                return Err(CookieError::MalformedMaxAge);
            }
            i += 1;
        }
        Ok(Some(c))
    }

    /// Reads the cookies of a list of lines, leaving out the lines that give
    /// none. The error where a line holds a malformed `Max-Age`.
    pub fn parse_all(lines: &Vec<String>) -> (r: Result<Vec<Cookie>, CookieError>)
        ensures
            match r {
                Ok(cookies) => read_lines(Seq::empty(), texts(lines@)) == Some(
                    cookie_views(cookies@),
                ),
                Err(e) => read_lines(Seq::empty(), texts(lines@)) is None,
            },
    {
        let ghost all = texts(lines@);
        let mut found: Vec<Cookie> = Vec::new();
        let n: usize = lines.len();
        let mut i: usize = 0;
        assert(all.subrange(0, n as int) =~= all);
        assert(cookie_views(found@) =~= Seq::<CookieView>::empty());
        while i < n
            invariant
                i <= n,
                n == lines@.len(),
                all == texts(lines@),
                read_lines(Seq::empty(), all) == read_lines(
                    cookie_views(found@),
                    all.subrange(i as int, n as int),
                ),
            decreases n - i,
        {
            let ghost rest = all.subrange(i as int, n as int);
            let ghost before = cookie_views(found@);
            assert(rest[0] == lines@[i as int]@);
            assert(rest.drop_first() =~= all.subrange(i + 1, n as int));
            match Cookie::parse(lines[i].as_str()) {
                Ok(Some(c)) => {
                    found.push(c);
                    assert(cookie_views(found@) =~= before.push(c@));
                },
                Ok(None) => {},
                Err(e) => {
                    return Err(e);
                },
            }
            i += 1;
        }
        Ok(found)
    }

    /// Reads a cookie line that holds no malformed `Max-Age`: the cookie, or
    /// `None` where the line does not start with one `name=value` pair.
    pub fn unmarshal(str: String) -> (r: Option<Cookie>)
        requires
            !(read_line(str@) is Malformed),
        ensures
            match r {
                None => read_line(str@) is Absent,
                Some(c) => read_line(str@) == CookieText::Record(c@),
            },
    {
        match Cookie::parse(str.as_str()) {
            Ok(r) => r,
            Err(_) => unreached(),
        }
    }
}

/// Whether a text can stand in a cookie line as a field: it holds neither
/// `;` nor `=`, and does not end with white space.
pub open spec fn plain_field(s: Seq<char>) -> bool {
    &&& free_of(s, ';')
    &&& free_of(s, '=')
    &&& s.len() > 0 ==> !is_space(s.last())
}

/// Whether a cookie comes through its line as it is: the name holds neither
/// `;` nor `=` and does not start with white space, the value, path, domain
/// and expiry are plain fields, and the `Max-Age` is not negative.
pub open spec fn comes_back(c: CookieView) -> bool {
    &&& c.name.len() > 0
    &&& !is_space(c.name[0])
    &&& free_of(c.name, ';')
    &&& free_of(c.name, '=')
    &&& plain_field(c.value)
    &&& plain_field(c.path)
    &&& plain_field(c.domain)
    &&& plain_field(c.raw_expires)
    &&& c.max_age >= 0
}

proof fn lemma_segments_push(c: CookieView, segments: Seq<Seq<char>>, last: Seq<char>)
    ensures
        with_segments(c, segments.push(last)) == (match with_segments(c, segments) {
            Some(next) => with_segment(next, last),
            None => None,
        }),
    decreases segments.len(),
{
    let all = segments.push(last);
    if segments.len() == 0 {
        assert(all.drop_first() =~= Seq::<Seq<char>>::empty());
        assert(all[0] == last);
        match with_segment(c, last) {
            Some(next) => {
                assert(with_segments(next, all.drop_first()) == Some(next));
            },
            None => {},
        }
    } else {
        assert(all[0] == segments[0]);
        assert(all.drop_first() =~= segments.drop_first().push(last));
        match with_segment(c, segments[0]) {
            Some(next) => {
                lemma_segments_push(next, segments.drop_first(), last);
            },
            None => {},
        }
    }
}

proof fn lemma_attr_step(
    first: Seq<char>,
    base: CookieView,
    x: Seq<char>,
    segments: Seq<Seq<char>>,
    c: CookieView,
    attr: Seq<char>,
    next: CookieView,
)
    requires
        split(x, seq![';']) == seq![first] + segments,
        with_segments(base, segments) == Some(c),
        attr.len() > 1,
        attr[0] == ';',
        free_of(attr.skip(1), ';'),
        with_segment(c, attr.skip(1)) == Some(next),
    ensures
        split(x + attr, seq![';']) == seq![first] + segments.push(attr.skip(1)),
        with_segments(base, segments.push(attr.skip(1))) == Some(next),
{
    let body = attr.skip(1);
    assert(x + attr =~= x + seq![';'] + body);
    lemma_split_last(x, ';', body);
    lemma_segments_push(base, segments, body);
    assert((seq![first] + segments).push(body) =~= seq![first] + segments.push(body));
}

proof fn lemma_path_segment(c: CookieView, path: Seq<char>)
    requires
        plain_field(path),
        path.len() > 0,
    ensures
        ("; Path="@ + path)[0] == ';',
        free_of(("; Path="@ + path).skip(1), ';'),
        with_segment(c, ("; Path="@ + path).skip(1)) == Some(CookieView { path: path, ..c }),
{
    reveal_strlit("; Path=");
    reveal_strlit("path");
    reveal_strlit("=");
    let key = seq!['P', 'a', 't', 'h'];
    let body = ("; Path="@ + path).skip(1);
    assert(body =~= seq![' '] + key + seq!['='] + path);
    assert("="@ =~= seq!['=']);
    lemma_pair_pieces(key, path);
    assert(is_word(key, "path"@));
}

proof fn lemma_domain_segment(c: CookieView, domain: Seq<char>)
    requires
        plain_field(domain),
        domain.len() > 0,
    ensures
        ("; Domain="@ + domain)[0] == ';',
        free_of(("; Domain="@ + domain).skip(1), ';'),
        with_segment(c, ("; Domain="@ + domain).skip(1)) == Some(
            CookieView { domain: domain, ..c },
        ),
{
    reveal_strlit("; Domain=");
    reveal_strlit("path");
    reveal_strlit("domain");
    reveal_strlit("=");
    let key = seq!['D', 'o', 'm', 'a', 'i', 'n'];
    let body = ("; Domain="@ + domain).skip(1);
    assert(body =~= seq![' '] + key + seq!['='] + domain);
    assert("="@ =~= seq!['=']);
    lemma_pair_pieces(key, domain);
    assert(!is_word(key, "path"@));
    assert(is_word(key, "domain"@));
}

proof fn lemma_expires_segment(c: CookieView, expires: Seq<char>)
    requires
        plain_field(expires),
        expires.len() > 0,
    ensures
        ("; Expires="@ + expires)[0] == ';',
        free_of(("; Expires="@ + expires).skip(1), ';'),
        with_segment(c, ("; Expires="@ + expires).skip(1)) == Some(
            CookieView { raw_expires: expires, ..c },
        ),
{
    reveal_strlit("; Expires=");
    reveal_strlit("path");
    reveal_strlit("domain");
    reveal_strlit("expires");
    reveal_strlit("=");
    let key = seq!['E', 'x', 'p', 'i', 'r', 'e', 's'];
    let body = ("; Expires="@ + expires).skip(1);
    assert(body =~= seq![' '] + key + seq!['='] + expires);
    assert("="@ =~= seq!['=']);
    lemma_pair_pieces(key, expires);
    assert(!is_word(key, "path"@));
    assert(!is_word(key, "domain"@));
    assert(is_word(key, "expires"@));
}

proof fn lemma_max_age_segment(c: CookieView, max_age: i32)
    requires
        max_age > 0,
    ensures
        max_age_attr(max_age).len() > 1,
        max_age_attr(max_age)[0] == ';',
        free_of(max_age_attr(max_age).skip(1), ';'),
        with_segment(c, max_age_attr(max_age).skip(1)) == Some(
            CookieView { max_age: max_age, ..c },
        ),
{
    reveal_strlit("; Max-Age=");
    reveal_strlit("path");
    reveal_strlit("domain");
    reveal_strlit("expires");
    reveal_strlit("max-age");
    reveal_strlit("=");
    let key = seq!['M', 'a', 'x', '-', 'A', 'g', 'e'];
    let number = decimal(max_age as int);
    lemma_decimal_digits(max_age as int);
    lemma_decimal_round_trip(max_age as int);
    assert forall|i: int| 0 <= i < number.len() implies #[trigger] number[i] != '=' && number[i]
        != ';' by {
        assert(is_digit(number[i]));
    }
    assert(is_digit(number.last()));
    let body = max_age_attr(max_age).skip(1);
    assert(body =~= seq![' '] + key + seq!['='] + number);
    assert("="@ =~= seq!['=']);
    lemma_pair_pieces(key, number);
    assert(!is_word(key, "path"@));
    assert(!is_word(key, "domain"@));
    assert(!is_word(key, "expires"@)) by {
        assert(key[0] == 'M');
    }
    assert(is_word(key, "max-age"@));
}

proof fn lemma_secure_segment(c: CookieView)
    ensures
        "; Secure"@.len() > 1,
        "; Secure"@[0] == ';',
        free_of("; Secure"@.skip(1), ';'),
        with_segment(c, "; Secure"@.skip(1)) == Some(CookieView { secure: true, ..c }),
{
    reveal_strlit("; Secure");
    reveal_strlit("secure");
    reveal_strlit("=");
    let word = seq!['S', 'e', 'c', 'u', 'r', 'e'];
    let body = "; Secure"@.skip(1);
    assert(body =~= seq![' '] + word);
    assert("="@ =~= seq!['=']);
    lemma_flag_pieces(word);
    assert(is_word(word, "secure"@));
}

proof fn lemma_http_only_segment(c: CookieView)
    ensures
        "; HttpOnly"@.len() > 1,
        "; HttpOnly"@[0] == ';',
        free_of("; HttpOnly"@.skip(1), ';'),
        with_segment(c, "; HttpOnly"@.skip(1)) == Some(CookieView { http_only: true, ..c }),
{
    reveal_strlit("; HttpOnly");
    reveal_strlit("secure");
    reveal_strlit("httponly");
    reveal_strlit("=");
    let word = seq!['H', 't', 't', 'p', 'O', 'n', 'l', 'y'];
    let body = "; HttpOnly"@.skip(1);
    assert(body =~= seq![' '] + word);
    assert("="@ =~= seq!['=']);
    lemma_flag_pieces(word);
    assert(!is_word(word, "secure"@));
    assert(is_word(word, "httponly"@));
}

proof fn lemma_same_site_key(c: CookieView, value: Seq<char>)
    ensures
        with_pair(c, seq!['S', 'a', 'm', 'e', 'S', 'i', 't', 'e'], value) == Some(
            CookieView { same_site: same_site_of(value), ..c },
        ),
{
    reveal_strlit("path");
    reveal_strlit("domain");
    reveal_strlit("expires");
    reveal_strlit("max-age");
    reveal_strlit("secure");
    reveal_strlit("httponly");
    reveal_strlit("samesite");
    let key = seq!['S', 'a', 'm', 'e', 'S', 'i', 't', 'e'];
    assert(!is_word(key, "path"@));
    assert(!is_word(key, "domain"@));
    assert(!is_word(key, "expires"@));
    assert(!is_word(key, "max-age"@));
    assert(!is_word(key, "secure"@));
    assert(!is_word(key, "httponly"@)) by {
        assert(key[0] == 'S');
    }
    assert(is_word(key, "samesite"@));
}

proof fn lemma_same_site_segment(c: CookieView, mode: SameSite)
    requires
        mode != SameSite::DefaultMode,
    ensures
        same_site_attr(mode).len() > 1,
        same_site_attr(mode)[0] == ';',
        free_of(same_site_attr(mode).skip(1), ';'),
        with_segment(c, same_site_attr(mode).skip(1)) == Some(CookieView { same_site: mode, ..c }),
{
    reveal_strlit("; SameSite=Lax");
    reveal_strlit("; SameSite=Strict");
    reveal_strlit("; SameSite=None");
    reveal_strlit("lax");
    reveal_strlit("strict");
    reveal_strlit("none");
    reveal_strlit("=");
    let key = seq!['S', 'a', 'm', 'e', 'S', 'i', 't', 'e'];
    let value = match mode {
        SameSite::LaxMode => seq!['L', 'a', 'x'],
        SameSite::StrictMode => seq!['S', 't', 'r', 'i', 'c', 't'],
        _ => seq!['N', 'o', 'n', 'e'],
    };
    let body = same_site_attr(mode).skip(1);
    assert(body =~= seq![' '] + key + seq!['='] + value);
    assert("="@ =~= seq!['=']);
    lemma_pair_pieces(key, value);
    lemma_same_site_key(c, value);
    match mode {
        SameSite::LaxMode => {
            assert(is_word(value, "lax"@));
        },
        SameSite::StrictMode => {
            assert(!is_word(value, "lax"@));
            assert(is_word(value, "strict"@));
        },
        _ => {
            assert(!is_word(value, "lax"@));
            assert(!is_word(value, "strict"@));
            assert(is_word(value, "none"@));
        },
    }
}

/// Reading the line of a cookie gives the cookie back, as long as the cookie
/// is one that comes through its line.
#[verifier::rlimit(50)]
pub proof fn lemma_cookie_round_trip(c: CookieView)
    requires
        comes_back(c),
    ensures
        read_line(cookie_line(c)) == CookieText::Record(c),
{
    reveal_strlit("=");
    reveal_strlit(";");
    assert("="@ =~= seq!['=']);
    assert(";"@ =~= seq![';']);
    let semi = seq![';'];
    let first = c.name + "="@ + c.value;
    let base = bare_cookie(c.name, c.value);
    let none = Seq::<Seq<char>>::empty();
    assert(first[0] == c.name[0]);
    if c.value.len() > 0 {
        assert(first.last() == c.value.last());
    } else {
        assert(first.last() == '=');
    }
    lemma_trim_none(first);
    lemma_split_first(c.name, '=', c.value);
    lemma_split_none(c.value, '=');
    assert(split(first, seq!['=']) =~= seq![c.name, c.value]);
    assert forall|i: int| 0 <= i < first.len() implies #[trigger] first[i] != ';' by {
        if i < c.name.len() {
            assert(first[i] == c.name[i]);
        } else if i > c.name.len() {
            assert(first[i] == c.value[i - c.name.len() - 1]);
        }
    }
    lemma_split_none(first, ';');
    let x0 = first;
    assert(split(x0, semi) =~= seq![first] + none);

    let a1 = text_attr("; Path="@, c.path);
    let x1 = x0 + a1;
    let s1 = if c.path.len() > 0 { none.push(a1.skip(1)) } else { none };
    let c1 = CookieView { path: c.path, ..base };
    assert(split(x1, semi) == seq![first] + s1 && with_segments(base, s1) == Some(c1)) by {
        if c.path.len() > 0 {
            reveal_strlit("; Path=");
            lemma_path_segment(base, c.path);
            lemma_attr_step(first, base, x0, none, base, a1, c1);
        } else {
            assert(x1 =~= x0);
            assert(c.path =~= Seq::<char>::empty());
        }
    }

    let a2 = text_attr("; Domain="@, c.domain);
    let x2 = x1 + a2;
    let s2 = if c.domain.len() > 0 { s1.push(a2.skip(1)) } else { s1 };
    let c2 = CookieView { domain: c.domain, ..c1 };
    assert(split(x2, semi) == seq![first] + s2 && with_segments(base, s2) == Some(c2)) by {
        if c.domain.len() > 0 {
            reveal_strlit("; Domain=");
            lemma_domain_segment(c1, c.domain);
            lemma_attr_step(first, base, x1, s1, c1, a2, c2);
        } else {
            assert(x2 =~= x1);
            assert(c.domain =~= Seq::<char>::empty());
        }
    }

    let a3 = text_attr("; Expires="@, c.raw_expires);
    let x3 = x2 + a3;
    let s3 = if c.raw_expires.len() > 0 { s2.push(a3.skip(1)) } else { s2 };
    let c3 = CookieView { raw_expires: c.raw_expires, ..c2 };
    assert(split(x3, semi) == seq![first] + s3 && with_segments(base, s3) == Some(c3)) by {
        if c.raw_expires.len() > 0 {
            reveal_strlit("; Expires=");
            lemma_expires_segment(c2, c.raw_expires);
            lemma_attr_step(first, base, x2, s2, c2, a3, c3);
        } else {
            assert(x3 =~= x2);
            assert(c.raw_expires =~= Seq::<char>::empty());
        }
    }

    let a4 = max_age_attr(c.max_age);
    let x4 = x3 + a4;
    let s4 = if c.max_age > 0 { s3.push(a4.skip(1)) } else { s3 };
    let c4 = CookieView { max_age: c.max_age, ..c3 };
    assert(split(x4, semi) == seq![first] + s4 && with_segments(base, s4) == Some(c4)) by {
        if c.max_age > 0 {
            lemma_max_age_segment(c3, c.max_age);
            lemma_attr_step(first, base, x3, s3, c3, a4, c4);
        } else {
            assert(x4 =~= x3);
        }
    }

    let a5 = flag_attr("; Secure"@, c.secure);
    let x5 = x4 + a5;
    let s5 = if c.secure { s4.push(a5.skip(1)) } else { s4 };
    let c5 = CookieView { secure: c.secure, ..c4 };
    assert(split(x5, semi) == seq![first] + s5 && with_segments(base, s5) == Some(c5)) by {
        if c.secure {
            lemma_secure_segment(c4);
            lemma_attr_step(first, base, x4, s4, c4, a5, c5);
        } else {
            assert(x5 =~= x4);
        }
    }

    let a6 = flag_attr("; HttpOnly"@, c.http_only);
    let x6 = x5 + a6;
    let s6 = if c.http_only { s5.push(a6.skip(1)) } else { s5 };
    let c6 = CookieView { http_only: c.http_only, ..c5 };
    assert(split(x6, semi) == seq![first] + s6 && with_segments(base, s6) == Some(c6)) by {
        if c.http_only {
            lemma_http_only_segment(c5);
            lemma_attr_step(first, base, x5, s5, c5, a6, c6);
        } else {
            assert(x6 =~= x5);
        }
    }

    let a7 = same_site_attr(c.same_site);
    let x7 = x6 + a7;
    let s7 = if c.same_site != SameSite::DefaultMode { s6.push(a7.skip(1)) } else { s6 };
    let c7 = CookieView { same_site: c.same_site, ..c6 };
    assert(split(x7, semi) == seq![first] + s7 && with_segments(base, s7) == Some(c7)) by {
        if c.same_site != SameSite::DefaultMode {
            lemma_same_site_segment(c6, c.same_site);
            lemma_attr_step(first, base, x6, s6, c6, a7, c7);
        } else {
            assert(x7 =~= x6);
        }
    }

    assert(x7 == cookie_line(c));
    let segments = split(cookie_line(c), ";"@);
    assert(segments[0] == first);
    assert(segments.subrange(1, segments.len() as int) =~= s7);
    assert(c7 == c);
}

} // verus!
