//! The linking strategy: how a redundant copy is replaced by a reference
//! to its group's canonical source.

use vstd::prelude::*;
use crate::error::Error;

verus! {

/// The way a duplicate file is replaced, fixed for a whole run.
#[derive(Debug, PartialEq, Eq, Structural, Clone, Copy)]
pub enum Strategy {
    /// A filesystem hard link to the source (requires the same volume).
    HardLink,
    /// A symbolic link pointing at the source's path.
    SymLink,
    /// A copy-on-write clone of the source's data.
    RefLink,
}

impl Strategy {
    /// The lower-case name of the strategy, as written in configuration
    /// and in log messages.
    pub open spec fn spec_label(self) -> Seq<char> {
        match self {
            Strategy::HardLink => "hardlink"@,
            Strategy::SymLink => "symlink"@,
            Strategy::RefLink => "reflink"@,
        }
    }

    /// The executable counterpart of [`Strategy::spec_label`].
    pub fn label(&self) -> (r: String)
        ensures
            r@ == self.spec_label(),
    {
        match self {
            Strategy::HardLink => "hardlink".to_owned(),
            Strategy::SymLink => "symlink".to_owned(),
            Strategy::RefLink => "reflink".to_owned(),
        }
    }
}

/// Parse a strategy name.  Exactly the three lower-case names are accepted;
/// anything else is an `UnsupportedStrategy` error carrying the given name.
pub fn strategy_from_name(name: &str) -> (r: Result<Strategy, Error>)
    ensures
        name@ == Strategy::HardLink.spec_label() ==> (r matches Ok(s) && s == Strategy::HardLink),
        name@ == Strategy::SymLink.spec_label() ==> (r matches Ok(s) && s == Strategy::SymLink),
        name@ == Strategy::RefLink.spec_label() ==> (r matches Ok(s) && s == Strategy::RefLink),
        r matches Ok(s) ==> name@ == s.spec_label(),
        r matches Err(e) ==> (e matches Error::UnsupportedStrategy { name: n } && n@ == name@
            && forall|s: Strategy| name@ != s.spec_label()),
{
    proof {
        reveal_strlit("hardlink");
        reveal_strlit("symlink");
        reveal_strlit("reflink");
        assert("hardlink"@.len() == 8);
        assert("symlink"@.len() == 7);
        assert("reflink"@.len() == 7);
        assert("symlink"@[0] == 's' && "reflink"@[0] == 'r');
        assert("hardlink"@ != "symlink"@);
        assert("hardlink"@ != "reflink"@);
        assert("symlink"@ != "reflink"@);
    }
    let owned = name.to_owned();
    if owned == "hardlink".to_owned() {
        Ok(Strategy::HardLink)
    } else if owned == "symlink".to_owned() {
        Ok(Strategy::SymLink)
    } else if owned == "reflink".to_owned() {
        Ok(Strategy::RefLink)
    } else {
        assert forall|s: Strategy| name@ != s.spec_label() by {
            match s {
                Strategy::HardLink => {},
                Strategy::SymLink => {},
                Strategy::RefLink => {},
            }
        }
        Err(Error::UnsupportedStrategy { name: owned })
    }
}

} // verus!
