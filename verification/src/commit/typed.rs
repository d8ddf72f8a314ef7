//! The strongly-typed view of a commit.

use vstd::prelude::*;

use crate::commit::Commit;
use crate::commit::CommitView;
use crate::commit::Footer;
use crate::commit::Scope;
use crate::commit::Type;
use crate::commit::footers_model;

verus! {

/// The strongly-typed variant of a commit: each part behind its own
/// component type.
pub trait Typed {
    /// The commit this value stands for.
    spec fn model(&self) -> CommitView;

    /// The type of the commit.
    fn type_(&self) -> (r: &Type)
        ensures
            r@ == self.model().ty,
    ;

    /// The optional scope of the commit.
    fn scope(&self) -> (r: Option<&Scope>)
        ensures
            (r is Some) == (self.model().scope is Some),
            r matches Some(sc) ==> self.model().scope == Some(sc@),
    ;

    /// The commit description.
    fn description(&self) -> (r: &str)
        ensures
            r@ == self.model().description,
    ;

    /// The commit body, containing a more detailed explanation of the
    /// commit changes.
    fn body(&self) -> (r: Option<&str>)
        ensures
            (r is Some) == (self.model().body is Some),
            r matches Some(b) ==> self.model().body == Some(b@),
    ;

    /// A flag to signal that the commit contains breaking changes.
    fn breaking(&self) -> (r: bool)
        ensures
            r == self.model().breaking,
    ;

    /// Any footer.
    fn footers(&self) -> (r: &Vec<Footer>)
        ensures
            footers_model(r@) == self.model().footers,
    ;
}

impl Typed for Commit {
    open spec fn model(&self) -> CommitView {
        self@
    }

    fn type_(&self) -> (r: &Type) {
        self.type_()
    }

    fn scope(&self) -> (r: Option<&Scope>) {
        self.scope()
    }

    fn description(&self) -> (r: &str) {
        self.description()
    }

    fn body(&self) -> (r: Option<&str>) {
        self.body()
    }

    fn breaking(&self) -> (r: bool) {
        self.breaking()
    }

    fn footers(&self) -> (r: &Vec<Footer>) {
        self.footers()
    }
}

} // verus!
