//! The per-type registry of draw pipelines.
//!
//! The renderer hosts one pipeline instance per pipeline kind. The kinds
//! form a closed set, so the registry is a small list keyed by kind with a
//! single-instance-per-kind invariant.

use vstd::prelude::*;
use crate::pipeline::MeshPipeline;

verus! {

/// The identity of a draw-pipeline type.
#[derive(Clone, Copy, Debug, PartialEq, Eq, Structural)]
pub enum PipelineKind {
    /// The triangle-mesh pipeline.
    Mesh,
}

/// One draw pipeline of any kind.
pub enum Pipeline {
    /// A mesh pipeline instance.
    Mesh(MeshPipeline),
}

impl Pipeline {
    /// The kind this instance belongs to.
    pub open spec fn spec_kind(&self) -> PipelineKind {
        match self {
            Pipeline::Mesh(_) => PipelineKind::Mesh,
        }
    }

    /// The kind this instance belongs to.
    pub fn kind(&self) -> (k: PipelineKind)
        ensures
            k == self.spec_kind(),
    {
        match self {
            Pipeline::Mesh(_) => PipelineKind::Mesh,
        }
    }
}

/// The [`MeshPipeline`] inside a [`Pipeline`] value.
pub open spec fn mesh_pipeline_of(p: Pipeline) -> MeshPipeline {
    match p {
        Pipeline::Mesh(m) => m,
    }
}

/// The registry as a map, each instance under its kind.
pub open spec fn pipes_map(s: Seq<Pipeline>) -> Map<PipelineKind, Pipeline>
    decreases s,
{
    if s.len() == 0 {
        Map::empty()
    } else {
        pipes_map(s.drop_first()).insert(s[0].spec_kind(), s[0])
    }
}

/// No two registered instances share a kind.
pub open spec fn kinds_distinct(s: Seq<Pipeline>) -> bool {
    forall|i: int, j: int|
        0 <= i < j < s.len() ==> (#[trigger] s[i]).spec_kind() != (#[trigger] s[j]).spec_kind()
}

/// What the registry map holds: a kind is present exactly when an
/// instance of it is registered, and — kinds being distinct — each
/// instance is found under its own kind, so the map never pairs a kind
/// with a foreign instance.
pub proof fn lemma_pipes_map(s: Seq<Pipeline>)
    ensures
        forall|k: PipelineKind| #[trigger]
            pipes_map(s).contains_key(k) == exists|i: int|
                0 <= i < s.len() && (#[trigger] s[i]).spec_kind() == k,
        kinds_distinct(s) ==> forall|i: int|
            0 <= i < s.len() ==> pipes_map(s)[(#[trigger] s[i]).spec_kind()] == s[i],
        kinds_distinct(s) ==> forall|k: PipelineKind| #[trigger]
            pipes_map(s).contains_key(k) ==> pipes_map(s)[k].spec_kind() == k,
    decreases s,
{
    if s.len() > 0 {
        lemma_pipes_map(s.drop_first());
        assert forall|k: PipelineKind| #[trigger]
            pipes_map(s).contains_key(k) == exists|i: int|
                0 <= i < s.len() && (#[trigger] s[i]).spec_kind() == k by {
            if pipes_map(s).contains_key(k) {
                if s[0].spec_kind() == k {
                    assert((#[trigger] s[0]).spec_kind() == k);
                } else {
                    let i = choose|i: int|
                        0 <= i < s.drop_first().len() && (#[trigger] s.drop_first()[
                            i
                        ]).spec_kind() == k;
                    assert(s[i + 1] == s.drop_first()[i]);
                }
            }
            if exists|i: int| 0 <= i < s.len() && (#[trigger] s[i]).spec_kind() == k {
                let i = choose|i: int| 0 <= i < s.len() && (#[trigger] s[i]).spec_kind() == k;
                if i > 0 {
                    assert(s.drop_first()[i - 1] == s[i]);
                }
            }
        }
        if kinds_distinct(s) {
            assert(kinds_distinct(s.drop_first())) by {
                assert forall|a: int, b: int|
                    0 <= a < b < s.drop_first().len() implies (#[trigger] s.drop_first()[
                a]).spec_kind() != (#[trigger] s.drop_first()[b]).spec_kind() by {
                    assert(s.drop_first()[a] == s[a + 1]);
                    assert(s.drop_first()[b] == s[b + 1]);
                }
            }
            assert forall|i: int| 0 <= i < s.len() implies pipes_map(s)[(#[trigger] s[
            i]).spec_kind()] == s[i] by {
                if i > 0 {
                    assert(s.drop_first()[i - 1] == s[i]);
                    assert(s[0].spec_kind() != s[i].spec_kind());
                }
            }
        }
    }
}

/// Registers at most one pipeline instance per kind, queried by kind.
pub struct PipelineStorage {
    inner: Vec<Pipeline>,
}

impl View for PipelineStorage {
    type V = Map<PipelineKind, Pipeline>;

    closed spec fn view(&self) -> Map<PipelineKind, Pipeline> {
        pipes_map(self.inner@)
    }
}

impl Default for PipelineStorage {
    /// An empty registry.
    fn default() -> (s: PipelineStorage)
        ensures
            s.wf(),
            s@ == Map::<PipelineKind, Pipeline>::empty(),
    {
        PipelineStorage { inner: Vec::new() }
    }
}

impl PipelineStorage {
    /// At most one instance per kind.
    pub closed spec fn wf(&self) -> bool {
        kinds_distinct(self.inner@)
    }

    /// The registered kinds, in registration order.
    pub closed spec fn kind_order(&self) -> Seq<PipelineKind> {
        self.inner@.map_values(|p: Pipeline| p.spec_kind())
    }

    /// The registered kinds, in registration order.
    pub fn keys(&self) -> (r: Vec<PipelineKind>)
        ensures
            r@ == self.kind_order(),
            r@.len() == self.num_pipelines(),
            forall|k: PipelineKind| #[trigger] r@.contains(k) == self@.contains_key(k),
    {
        proof {
            lemma_pipes_map(self.inner@);
        }
        let mut r: Vec<PipelineKind> = Vec::new();
        let mut i: usize = 0;
        while i < self.inner.len()
            invariant
                i <= self.inner.len(),
                r@.len() == i,
                forall|j: int| 0 <= j < i ==> #[trigger] r@[j] == self.inner@[j].spec_kind(),
            decreases self.inner.len() - i,
        {
            let k = self.inner[i].kind();
            r.push(k);
            i = i + 1;
        }
        proof {
            assert(r@ =~= self.kind_order());
            assert forall|k: PipelineKind| #[trigger] r@.contains(k) == self@.contains_key(k) by {
                if r@.contains(k) {
                    let j = choose|j: int| 0 <= j < r@.len() && r@[j] == k;
                    assert(self.inner@[j].spec_kind() == k);
                }
                if self@.contains_key(k) {
                    let j = choose|j: int|
                        0 <= j < self.inner@.len() && (#[trigger] self.inner@[j]).spec_kind() == k;
                    assert(r@[j] == k);
                }
            }
        }
        r
    }

    /// How many pipeline instances are registered.
    pub closed spec fn num_pipelines(&self) -> nat {
        self.inner@.len()
    }

    /// Whether an instance of `kind` is registered.
    pub fn has(&self, kind: PipelineKind) -> (r: bool)
        ensures
            r == self@.contains_key(kind),
    {
        proof {
            lemma_pipes_map(self.inner@);
        }
        let mut i: usize = 0;
        while i < self.inner.len()
            invariant
                i <= self.inner.len(),
                forall|j: int| 0 <= j < i ==> (#[trigger] self.inner@[j]).spec_kind() != kind,
                self@.contains_key(kind) == exists|j: int|
                    0 <= j < self.inner@.len() && (#[trigger] self.inner@[j]).spec_kind() == kind,
            decreases self.inner.len() - i,
        {
            if self.inner[i].kind() == kind {
                return true;
            }
            i = i + 1;
        }
        false
    }

    /// Registers `pipeline` under its kind, replacing the instance that
    /// was there, if any: one instance per kind.
    pub fn store(&mut self, pipeline: Pipeline)
        requires
            old(self).wf(),
        ensures
            final(self).wf(),
            final(self)@ == old(self)@.insert(pipeline.spec_kind(), pipeline),
    {
        proof {
            lemma_pipes_map(self.inner@);
        }
        let ghost pre = self.inner@;
        let kind = pipeline.kind();
        let mut i: usize = 0;
        while i < self.inner.len()
            invariant
                i <= self.inner.len(),
                *self == *old(self),
                self.inner@ == pre,
                kind == pipeline.spec_kind(),
                kinds_distinct(pre),
                forall|j: int| 0 <= j < i ==> (#[trigger] pre[j]).spec_kind() != kind,
            decreases self.inner.len() - i,
        {
            if self.inner[i].kind() == kind {
                proof {
                    lemma_pipes_map_update(pre, i as int, pipeline);
                }
                self.inner.set(i, pipeline);
                proof {
                    assert(kinds_distinct(self.inner@)) by {
                        assert forall|a: int, b: int|
                            0 <= a < b < self.inner@.len() implies (#[trigger] self.inner@[
                        a]).spec_kind() != (#[trigger] self.inner@[b]).spec_kind() by {
                            if a != i && b != i {
                                assert(self.inner@[a] == pre[a]);
                                assert(self.inner@[b] == pre[b]);
                            } else if a == i {
                                assert(self.inner@[b] == pre[b]);
                                assert(pre[i as int].spec_kind() == kind);
                            } else {
                                assert(self.inner@[a] == pre[a]);
                                assert(pre[i as int].spec_kind() == kind);
                            }
                        }
                    }
                }
                return ;
            }
            i = i + 1;
        }
        proof {
            lemma_pipes_map_push(pre, pipeline);
        }
        self.inner.push(pipeline);
        proof {
            assert(kinds_distinct(self.inner@)) by {
                assert(forall|j: int|
                    0 <= j < pre.len() ==> #[trigger] self.inner@[j] == pre[j]);
                assert(self.inner@[pre.len() as int] == pipeline);
            }
        }
    }

    /// The registered instance of `kind`, if any.
    pub fn get(&self, kind: PipelineKind) -> (r: Option<&Pipeline>)
        requires
            self.wf(),
        ensures
            (r is Some) == self@.contains_key(kind),
            r matches Some(p) ==> *p == self@[kind],
    {
        proof {
            lemma_pipes_map(self.inner@);
        }
        let mut i: usize = 0;
        while i < self.inner.len()
            invariant
                i <= self.inner.len(),
                kinds_distinct(self.inner@),
                forall|j: int| 0 <= j < i ==> (#[trigger] self.inner@[j]).spec_kind() != kind,
                self@.contains_key(kind) == exists|j: int|
                    0 <= j < self.inner@.len() && (#[trigger] self.inner@[j]).spec_kind() == kind,
                kinds_distinct(self.inner@) ==> forall|j: int|
                    0 <= j < self.inner@.len() ==> self@[(#[trigger] self.inner@[j]).spec_kind()]
                        == self.inner@[j],
            decreases self.inner.len() - i,
        {
            if self.inner[i].kind() == kind {
                return Some(&self.inner[i]);
            }
            i = i + 1;
        }
        None
    }

    /// Mutable access to the registered instance of `kind`, if any. As
    /// long as the caller leaves the instance's kind alone, the registry
    /// afterwards holds the mutated instance under `kind` and nothing
    /// else changed.
    pub fn get_mut(&mut self, kind: PipelineKind) -> (r: Option<&mut Pipeline>)
        requires
            old(self).wf(),
        ensures
            (r is Some) == old(self)@.contains_key(kind),
            r matches Some(p) ==> {
                &&& *p == old(self)@[kind]
                &&& final(p).spec_kind() == kind ==> final(self).wf() && final(self)@ == old(
                    self,
                )@.insert(kind, *final(p))
            },
            r is None ==> *final(self) == *old(self),
    {
        proof {
            lemma_pipes_map(self.inner@);
        }
        let ghost pre = self.inner@;
        let mut i: usize = 0;
        while i < self.inner.len()
            invariant
                i <= self.inner.len(),
                *self == *old(self),
                self.inner@ == pre,
                kinds_distinct(pre),
                forall|j: int| 0 <= j < i ==> (#[trigger] pre[j]).spec_kind() != kind,
                self@.contains_key(kind) == exists|j: int|
                    0 <= j < pre.len() && (#[trigger] pre[j]).spec_kind() == kind,
                forall|j: int| 0 <= j < pre.len() ==> self@[(#[trigger] pre[j]).spec_kind()]
                    == pre[j],
            decreases self.inner.len() - i,
        {
            if self.inner[i].kind() == kind {
                proof {
                    lemma_pipes_map_update(pre, i as int, pre[i as int]);
                }
                let p = &mut self.inner[i];
                proof {
                    assert(*p == old(self)@[kind]);
                }
                return Some(p);
            }
            i = i + 1;
        }
        None
    }
}

/// The registry keeps a single instance per kind: storing a second
/// pipeline of the same kind replaces the first outright, as if the first
/// had never been stored — a lookup afterwards sees only the second.
pub proof fn lemma_store_replaces(
    m: Map<PipelineKind, Pipeline>,
    p1: Pipeline,
    p2: Pipeline,
)
    requires
        p1.spec_kind() == p2.spec_kind(),
    ensures
        m.insert(p1.spec_kind(), p1).insert(p2.spec_kind(), p2) == m.insert(p2.spec_kind(), p2),
        m.insert(p1.spec_kind(), p1).insert(p2.spec_kind(), p2)[p2.spec_kind()] == p2,
{
    assert(m.insert(p1.spec_kind(), p1).insert(p2.spec_kind(), p2) =~= m.insert(
        p2.spec_kind(),
        p2,
    ));
}

/// Replacing the instance at `i` by one of the same kind updates exactly
/// that kind's binding.
pub proof fn lemma_pipes_map_update(s: Seq<Pipeline>, i: int, p: Pipeline)
    requires
        kinds_distinct(s),
        0 <= i < s.len(),
        s[i].spec_kind() == p.spec_kind(),
    ensures
        pipes_map(s.update(i, p)) == pipes_map(s).insert(p.spec_kind(), p),
        kinds_distinct(s.update(i, p)),
    decreases s,
{
    assert forall|a: int, b: int|
        0 <= a < b < s.update(i, p).len() implies (#[trigger] s.update(i, p)[a]).spec_kind() != (
    #[trigger] s.update(i, p)[b]).spec_kind() by {
        if a != i {
            assert(s.update(i, p)[a] == s[a]);
        }
        if b != i {
            assert(s.update(i, p)[b] == s[b]);
        }
    }
    if i == 0 {
        assert(s.update(0, p).drop_first() =~= s.drop_first());
        assert(s.update(0, p)[0] == p);
        assert(pipes_map(s.update(0, p)) =~= pipes_map(s).insert(p.spec_kind(), p));
    } else {
        assert(kinds_distinct(s.drop_first())) by {
            assert forall|a: int, b: int|
                0 <= a < b < s.drop_first().len() implies (#[trigger] s.drop_first()[
            a]).spec_kind() != (#[trigger] s.drop_first()[b]).spec_kind() by {
                assert(s.drop_first()[a] == s[a + 1]);
                assert(s.drop_first()[b] == s[b + 1]);
            }
        }
        assert(s.drop_first()[i - 1] == s[i]);
        lemma_pipes_map_update(s.drop_first(), i - 1, p);
        assert(s.update(i, p).drop_first() =~= s.drop_first().update(i - 1, p));
        assert(s.update(i, p)[0] == s[0]);
        assert(s[0].spec_kind() != p.spec_kind());
        assert(pipes_map(s.update(i, p)) =~= pipes_map(s).insert(p.spec_kind(), p));
    }
}

/// Registering a new kind extends the registry map by exactly that
/// binding.
pub proof fn lemma_pipes_map_push(s: Seq<Pipeline>, p: Pipeline)
    requires
        forall|i: int| 0 <= i < s.len() ==> (#[trigger] s[i]).spec_kind() != p.spec_kind(),
    ensures
        pipes_map(s.push(p)) == pipes_map(s).insert(p.spec_kind(), p),
    decreases s,
{
    if s.len() == 0 {
        assert(s.push(p).drop_first() =~= s);
        assert(s.push(p)[0] == p);
        assert(pipes_map(s.push(p)) =~= pipes_map(s).insert(p.spec_kind(), p));
    } else {
        assert(s.push(p).drop_first() =~= s.drop_first().push(p));
        assert forall|i: int| 0 <= i < s.drop_first().len() implies (#[trigger] s.drop_first()[
        i]).spec_kind() != p.spec_kind() by {
            assert(s.drop_first()[i] == s[i + 1]);
        }
        lemma_pipes_map_push(s.drop_first(), p);
        assert(s.push(p)[0] == s[0]);
        assert(s[0].spec_kind() != p.spec_kind());
        assert(pipes_map(s.push(p)) =~= pipes_map(s).insert(p.spec_kind(), p));
    }
}

} // verus!
