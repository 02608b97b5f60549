//! Declaration records: functions and methods keyed by qualified name, and
//! classes keyed by class name.

use vstd::prelude::*;
use vstd::string::StringExecFns;
use crate::text::qualified_name;

verus! {

/// A function or method declaration. `pkg` holds the owning class's name and
/// is empty for free functions; `body` is the literal source text of the body.
pub struct Function {
    pub name: String,
    pub pkg: String,
    pub body: String,
}

/// The mathematical shape of a function declaration.
#[verifier::ext_equal]
pub ghost struct FunRecord {
    pub name: Seq<char>,
    pub pkg: Seq<char>,
    pub body: Seq<char>,
}

impl View for Function {
    type V = FunRecord;

    open spec fn view(&self) -> FunRecord {
        FunRecord { name: self.name@, pkg: self.pkg@, body: self.body@ }
    }
}

/// The key a function declaration is stored under.
pub open spec fn fun_key(f: FunRecord) -> Seq<char> {
    qualified_name(f.pkg, f.name)
}

impl Function {
    /// The qualified name: `"pkg.name"` for methods, the bare name otherwise.
    pub fn str(&self) -> (r: String)
        ensures
            r@ == fun_key(self@),
    {
        if self.pkg.as_str().is_empty() {
            return self.name.clone();
        }
        let mut r = self.pkg.clone();
        r.append(".");
        r.append(self.name.as_str());
        proof {
            reveal_strlit(".");
            assert(r@ =~= qualified_name(self.pkg@, self.name@));
        }
        r
    }

    /// A declaration with an empty body, to be filled by extraction.
    pub fn new(name: String, pkg: String) -> (r: Function)
        ensures
            r@ == (FunRecord { name: name@, pkg: pkg@, body: Seq::<char>::empty() }),
    {
        let r = Function { name, pkg, body: String::new() };
        proof {
            assert(r.body@ =~= Seq::<char>::empty());
        }
        r
    }
}

/// A class declaration: the class name and its header text, which spans from
/// the class's start offset to the start of its first method (or to the end of
/// the class when it has no methods).
pub struct Class {
    pub name: String,
    pub declaration: String,
}

/// The mathematical shape of a class declaration.
#[verifier::ext_equal]
pub ghost struct ClassRecord {
    pub name: Seq<char>,
    pub declaration: Seq<char>,
}

impl View for Class {
    type V = ClassRecord;

    open spec fn view(&self) -> ClassRecord {
        ClassRecord { name: self.name@, declaration: self.declaration@ }
    }
}

} // verus!
