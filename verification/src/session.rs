//! One mount session: the owner of the current namespace generation. The
//! generation is immutable while served; a refresh replaces it wholesale with
//! a newly built one, it is never edited in place.

use vstd::prelude::*;

use crate::entry::EntryModel;
use crate::serve::{Namespace, wf_models};

verus! {

/// The session state: which generation is current, and its namespace.
pub struct Session {
    namespace: Namespace,
    generation: u64,
}

impl Session {
    /// The entry models of the current generation.
    pub closed spec fn models(&self) -> Seq<EntryModel> {
        self.namespace.models()
    }

    pub closed spec fn spec_generation(&self) -> u64 {
        self.generation
    }

    pub open spec fn wf(&self) -> bool {
        wf_models(self.models())
    }

    /// Starts a session serving a freshly built namespace as generation 0.
    pub fn new(namespace: Namespace) -> (r: Session)
        requires
            namespace.wf(),
        ensures
            r.models() == namespace.models(),
            r.spec_generation() == 0,
            r.wf(),
    {
        Session { namespace, generation: 0 }
    }

    /// The namespace every in-flight operation of this generation consults.
    pub fn current(&self) -> (r: &Namespace)
        ensures
            r.models() == self.models(),
    {
        &self.namespace
    }

    pub fn generation(&self) -> (r: u64)
        ensures
            r == self.spec_generation(),
    {
        self.generation
    }

    /// Replaces the served namespace wholesale with a newly built one: the
    /// old generation is dropped, never merged into.
    pub fn refresh(&mut self, namespace: Namespace)
        requires
            namespace.wf(),
            old(self).spec_generation() < u64::MAX,
        ensures
            final(self).models() == namespace.models(),
            final(self).spec_generation() == old(self).spec_generation() + 1,
            final(self).wf(),
    {
        self.namespace = namespace;
        self.generation = self.generation + 1;
    }
}

} // verus!
