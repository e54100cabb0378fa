//! What may carry the plugin attribute: the struct of a program, and the
//! block that implements `Program` for it with `new` and `run` and nothing
//! else.

use vstd::prelude::*;
use vstd::string::*;
use crate::text::same_text;

verus! {

/// One member of an implementation block.
pub enum Member {
    /// A method, with its name.
    Method(String),
    /// Anything that is no method.
    Other,
}

/// An item as far as its shape counts.
pub enum Item {
    /// An implementation block: the last segment of the path of the trait it
    /// implements, if it implements one, and its members in their order.
    Impl { trait_name: Option<String>, members: Vec<Member> },
    /// A struct.
    Struct,
    /// Any other item.
    Other,
}

/// What is generated for an item.
#[derive(Debug, Clone, Copy, PartialEq, Eq, Structural)]
pub enum Generated {
    /// For the struct: the storage cell of the one instance.
    Storage,
    /// For the implementation block: the init and run entry points.
    EntryPoints,
}

/// Why an item cannot carry the attribute.
#[derive(Debug, Clone, Copy, PartialEq, Eq, Structural)]
pub enum ShapeError {
    /// The block implements no trait, or one that is not `Program`.
    NotProgramImpl,
    /// The block holds a member that is no method, at this position.
    NotAMethod(usize),
    /// The block holds a method other than `new` and `run`, at this position.
    UnknownMethod(usize),
    /// The item is neither a struct nor an implementation block.
    UnsupportedItem,
}

impl ShapeError {
    /// The message for the one who wrote the item.
    pub fn message(&self) -> (m: &'static str)
        ensures
            m@ == match *self {
                ShapeError::NotProgramImpl => "Must be a Program trait impl"@,
                ShapeError::NotAMethod(_) => "Impl block must only contain methods"@,
                ShapeError::UnknownMethod(_) => "Impl block must only contain the methods new and run"@,
                ShapeError::UnsupportedItem => "Easegress Object macro can only be applied to structs and their impl of Program trait"@,
            },
    {
        match self {
            ShapeError::NotProgramImpl => "Must be a Program trait impl",
            ShapeError::NotAMethod(_) => "Impl block must only contain methods",
            ShapeError::UnknownMethod(_) => "Impl block must only contain the methods new and run",
            ShapeError::UnsupportedItem => "Easegress Object macro can only be applied to structs and their impl of Program trait",
        }
    }
}

/// What is wrong with the member at position `at`, if anything.
pub open spec fn member_fault(m: Member, at: usize) -> Option<ShapeError> {
    match m {
        Member::Other => Some(ShapeError::NotAMethod(at)),
        Member::Method(name) => if name@ == "new"@ || name@ == "run"@ {
            None
        } else {
            Some(ShapeError::UnknownMethod(at))
        },
    }
}

/// The fault of the first member at or after `from` that has one.
pub open spec fn first_fault(members: Seq<Member>, from: int) -> Option<ShapeError>
    decreases members.len() - from,
{
    if from < 0 || from >= members.len() {
        None
    } else {
        match member_fault(members[from], from as usize) {
            Some(e) => Some(e),
            None => first_fault(members, from + 1),
        }
    }
}

/// What is generated for an item, or why nothing is.
pub open spec fn expansion(item: Item) -> Result<Generated, ShapeError> {
    match item {
        Item::Struct => Ok(Generated::Storage),
        Item::Other => Err(ShapeError::UnsupportedItem),
        Item::Impl { trait_name, members } => {
            if trait_name is Some && trait_name->0@ == "Program"@ {
                match first_fault(members@, 0) {
                    None => Ok(Generated::EntryPoints),
                    Some(e) => Err(e),
                }
            } else {
                Err(ShapeError::NotProgramImpl)
            }
        },
    }
}

/// Looks at the member at position `at`.
pub fn check_member(m: &Member, at: usize) -> (r: Option<ShapeError>)
    ensures
        r == member_fault(*m, at),
{
    match m {
        Member::Other => Some(ShapeError::NotAMethod(at)),
        Member::Method(name) => {
            if same_text(name.as_str(), "new") || same_text(name.as_str(), "run") {
                None
            } else {
                Some(ShapeError::UnknownMethod(at))
            }
        },
    }
}

/// Decides what is generated for an item: the storage for a struct, the
/// entry points for an implementation of `Program` that holds only methods
/// named `new` or `run`, and otherwise the first thing that is wrong.
pub fn expand_macro(item: &Item) -> (r: Result<Generated, ShapeError>)
    ensures
        r == expansion(*item),
{
    match item {
        Item::Struct => Ok(Generated::Storage),
        Item::Other => Err(ShapeError::UnsupportedItem),
        Item::Impl { trait_name, members } => {
            let named = match trait_name {
                Some(t) => same_text(t.as_str(), "Program"),
                None => false,
            };
            if !named {
                return Err(ShapeError::NotProgramImpl);
            }
            let n: usize = members.len();
            let mut i: usize = 0;
            while i < n
                invariant
                    i <= n,
                    n == members@.len(),
                    expansion(*item) == (match first_fault(members@, 0) {
                        None => Ok::<Generated, ShapeError>(Generated::EntryPoints),
                        Some(e) => Err(e),
                    }),
                    first_fault(members@, 0) == first_fault(members@, i as int),
                decreases n - i,
            {
                match check_member(&members[i], i) {
                    Some(e) => {
                        return Err(e);
                    },
                    None => {},
                }
                i += 1;
            }
            Ok(Generated::EntryPoints)
        },
    }
}

} // verus!
