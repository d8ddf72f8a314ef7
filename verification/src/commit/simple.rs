//! The weakly-typed view of a commit.

use vstd::prelude::*;

use crate::commit::Commit;
use crate::commit::CommitView;
use crate::commit::spec_sep_str;
use crate::component::SimpleFooter;

verus! {

/// The weakly-typed variant of a commit: every part as a plain string.
pub trait Simple {
    /// The commit this value stands for.
    spec fn model(&self) -> CommitView;

    /// The type of the commit.
    fn type_(&self) -> (r: &str)
        ensures
            r@ == self.model().ty,
    ;

    /// The optional scope of the commit.
    fn scope(&self) -> (r: Option<&str>)
        ensures
            (r is Some) == (self.model().scope is Some),
            r matches Some(sc) ==> self.model().scope == Some(sc@),
    ;

    /// The commit description.
    fn description(&self) -> (r: &str)
        ensures
            r@ == self.model().description,
    ;

    /// The commit body, containing a more detailed explanation of the
    /// commit changes.
    fn body(&self) -> (r: Option<&str>)
        ensures
            (r is Some) == (self.model().body is Some),
            r matches Some(b) ==> self.model().body == Some(b@),
    ;

    /// A flag to signal that the commit contains breaking changes.
    fn breaking(&self) -> (r: bool)
        ensures
            r == self.model().breaking,
    ;

    /// Any footer, with each part as a plain string.
    fn footers(&self) -> (r: Vec<SimpleFooter>)
        ensures
            r@.len() == self.model().footers.len(),
            forall|k: int| 0 <= k < r@.len() ==> #[trigger] r@[k]@ == (
                self.model().footers[k].token,
                spec_sep_str(self.model().footers[k].sep),
                self.model().footers[k].value,
            ),
    ;
}

impl Simple for Commit {
    open spec fn model(&self) -> CommitView {
        self@
    }

    fn type_(&self) -> (r: &str) {
        self.type_().as_str()
    }

    fn scope(&self) -> (r: Option<&str>) {
        match self.scope() {
            Some(sc) => Some(sc.as_str()),
            None => None,
        }
    }

    fn description(&self) -> (r: &str) {
        self.description()
    }

    fn body(&self) -> (r: Option<&str>) {
        self.body()
    }

    fn breaking(&self) -> (r: bool) {
        self.breaking()
    }

    fn footers(&self) -> (r: Vec<SimpleFooter>) {
        let fs = self.footers();
        let n = fs.len();
        let mut out: Vec<SimpleFooter> = Vec::new();
        let mut i: usize = 0;
        while i < n
            invariant
                n == fs@.len(),
                crate::commit::footers_model(fs@) == self@.footers,
                i <= n,
                out@.len() == i,
                forall|k: int| 0 <= k < i ==> #[trigger] out@[k]@ == (
                    self@.footers[k].token,
                    spec_sep_str(self@.footers[k].sep),
                    self@.footers[k].value,
                ),
            decreases n - i,
        {
            let f = &fs[i];
            proof {
                assert(self@.footers[i as int] == fs@[i as int]@);
            }
            out.push(
                SimpleFooter::new(
                    f.token().as_str().to_owned(),
                    f.separator().as_str().to_owned(),
                    f.value().to_owned(),
                ),
            );
            i = i + 1;
        }
        out
    }
}

} // verus!
