use vstd::prelude::*;

verus! {

/// The languages that bindings can be emitted in.
#[derive(PartialEq, Eq, Structural, Clone, Copy, Debug)]
pub enum Target {
    JavaScript,
    TypeScript,
    Motoko,
    /// The interface itself, with a service constructor replaced by the
    /// service it returns.
    InstalledDid,
}

/// The target named by a tag: `ts`, `mo` or `installed_did`.
pub open spec fn target_of(tag: Seq<char>) -> Option<Target> {
    if tag == "ts"@ {
        Some(Target::TypeScript)
    } else if tag == "mo"@ {
        Some(Target::Motoko)
    } else if tag == "installed_did"@ {
        Some(Target::InstalledDid)
    } else {
        None
    }
}

impl Target {
    /// Reads a target tag; `None` for a tag that names no target.
    pub fn from_tag(tag: &String) -> (r: Option<Target>)
        ensures
            r == target_of(tag@),
    {
        let ts = "ts".to_owned();
        let mo = "mo".to_owned();
        let did = "installed_did".to_owned();
        if *tag == ts {
            Some(Target::TypeScript)
        } else if *tag == mo {
            Some(Target::Motoko)
        } else if *tag == did {
            Some(Target::InstalledDid)
        } else {
            None
        }
    }
}

} // verus!
