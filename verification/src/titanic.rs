//! Iceberg concepts: the concepts whose extent is large enough.
use vstd::prelude::*;
use crate::api::PyFormalContext;
use crate::concept::{ConceptCollection, ConceptGenerator, sorted_by_intent};
use crate::names::copy_labels;

verus! {

/// Enumerates iceberg concepts.
pub struct PyTitanic;

impl PyTitanic {
    pub fn new() -> (r: Self) {
        PyTitanic
    }

    /// The concepts of `ctx` whose extent holds at least `min_support`
    /// objects, each once, in lectic order of their intents.
    pub fn enumerate(&self, ctx: &PyFormalContext, min_support: u32) -> (r: ConceptCollection)
        requires
            ctx.wf(),
        ensures
            ctx.ctx().lists_iceberg(r.pairs(), min_support as nat),
            sorted_by_intent(r.pairs()),
            r.object_names() == ctx.ctx().objects,
            r.attribute_names() == ctx.ctx().attributes,
    {
        let data = ctx.inner().index_iceberg_concepts(min_support);
        ConceptCollection::new(data, copy_labels(ctx.inner().objects()), copy_labels(ctx.inner().attributes()))
    }

    /// The same concepts, handed out lazily; while the generator lives,
    /// changes to `ctx` are refused.
    pub fn enumerate_lazy(&self, ctx: &mut PyFormalContext, min_support: u32) -> (r: ConceptGenerator)
        requires
            old(ctx).wf(),
        ensures
            final(ctx).wf(),
            old(ctx).ctx().lists_iceberg(r.pairs(), min_support as nat),
            sorted_by_intent(r.pairs()),
            r.object_names() == old(ctx).ctx().objects,
            r.attribute_names() == old(ctx).ctx().attributes,
            r.position() == 0,
            r.generation() == old(ctx).generation(),
            final(ctx).ctx() == old(ctx).ctx(),
            final(ctx).generation() == old(ctx).generation(),
            final(ctx).live_lazy() == if old(ctx).live_lazy() == u32::MAX { 0 } else { (old(ctx).live_lazy() + 1) as u32 },
    {
        let data = ctx.inner().index_iceberg_concepts(min_support);
        let objects = copy_labels(ctx.inner().objects());
        let attributes = copy_labels(ctx.inner().attributes());
        let generation = ctx.mutation_gen();
        ctx.register_lazy();
        ConceptGenerator::new(data, objects, attributes, generation)
    }
}

} // verus!
