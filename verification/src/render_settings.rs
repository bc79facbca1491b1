//! Plain-value models of the render-facing tags and settings that ride on
//! the entity store, and the small numeric helpers of the render views.

use vstd::prelude::*;
use crate::storage::QueryItem;
use crate::storage::World;
use crate::storage::chunks_wf;
use crate::storage::lemma_distinct_preserved;
use crate::query::QueryState;
use crate::iter::collect_segment_items;
use crate::iter::full_segments;
use crate::iter::is_matched_write;
use crate::iter::write_matched;

verus! {

/// Marker for a camera that renders with order-independent transparency.
#[derive(Clone, Copy)]
pub struct OitCamera;

/// Determines how many layers are used for order-independent transparency.
#[derive(Clone, Copy, Debug)]
pub struct OitLayers(pub usize);

impl Default for OitLayers {
    /// Eight layers.
    fn default() -> (r: Self)
        ensures
            r.0 == 8,
    {
        OitLayers(8)
    }
}

/// Handle of the bind group holding a view's transparency layers.
pub struct OitLayersBindGroup(pub u64);

/// Handle of the per-view uniform bind group of the transparency pass.
pub struct OitViewBindGroup(pub u64);

/// Identifier of the cached pipeline that sorts transparency layers.
#[derive(Clone, Copy)]
pub struct OitSortPipelineId(pub u64);

/// Handle of the bind group through which the depth texture is sampled.
pub struct DepthTextureBindGroup(pub u64);

/// Usage bit allowing a texture to be bound for sampling.
pub const TEXTURE_BINDING: u64 = 0x4;

/// Usage bit allowing a texture to be used as a render attachment.
pub const RENDER_ATTACHMENT: u64 = 0x10;

/// Makes sure every queried camera's depth texture can be used as a render
/// attachment and be sampled: the camera's usage bits gain
/// `RENDER_ATTACHMENT` and `TEXTURE_BINDING`, and nothing else changes.
pub fn configure_depth_texture_usages(world: &mut World, cameras: &QueryState)
    requires
        old(world).wf(),
        cameras.wf_for(old(world).storage(cameras.is_dense)),
    ensures
        final(world).wf(),
        final(world).resources@ == old(world).resources@,
        final(world).storage(!cameras.is_dense) == old(world).storage(!cameras.is_dense),
        is_matched_write(
            *cameras,
            old(world).storage(cameras.is_dense),
            cameras.matched_items(old(world).storage(cameras.is_dense)).map_values(
                |item: QueryItem| item.value | (RENDER_ATTACHMENT | TEXTURE_BINDING),
            ),
            final(world).storage(cameras.is_dense),
        ),
{
    if cameras.is_dense {
        configure_usages_on(&mut world.tables, cameras);
    } else {
        configure_usages_on(&mut world.archetypes, cameras);
    }
    proof {
        lemma_distinct_preserved(
            old(world).storage(cameras.is_dense),
            world.storage(cameras.is_dense),
        );
    }
}

/// The storage-level pass of [`configure_depth_texture_usages`].
fn configure_usages_on(chunks: &mut Vec<crate::storage::Chunk>, cameras: &QueryState)
    requires
        chunks_wf(old(chunks)@),
        cameras.wf_for(old(chunks)@),
    ensures
        chunks_wf(final(chunks)@),
        final(chunks)@.len() == old(chunks)@.len(),
        forall|c: int|
            0 <= c < old(chunks)@.len() ==> (#[trigger] final(chunks)@[c]).entities@ == old(
                chunks,
            )@[c].entities@ && final(chunks)@[c].shape@ == old(chunks)@[c].shape@,
        is_matched_write(
            *cameras,
            old(chunks)@,
            cameras.matched_items(old(chunks)@).map_values(
                |item: QueryItem| item.value | (RENDER_ATTACHMENT | TEXTURE_BINDING),
            ),
            final(chunks)@,
        ),
{
    let segs = full_segments(chunks, cameras);
    let items = collect_segment_items(chunks, &segs);
    let n = items.len();
    let mut vals: Vec<u64> = Vec::new();
    for i in 0..n
        invariant
            n == items@.len(),
            vals@.len() == i,
            forall|j: int|
                0 <= j < i ==> (#[trigger] vals@[j]) == (items@[j].value | (RENDER_ATTACHMENT
                    | TEXTURE_BINDING)),
    {
        vals.push(items[i].value | (RENDER_ATTACHMENT | TEXTURE_BINDING));
    }
    proof {
        assert(vals@ =~= cameras.matched_items(old(chunks)@).map_values(
            |item: QueryItem| item.value | (RENDER_ATTACHMENT | TEXTURE_BINDING),
        ));
    }
    write_matched(chunks, cameras, &vals);
}

/// The least multiple of 64 that is at least `x`.
pub fn round_up_to_multiple_of_64(x: u32) -> (r: u32)
    requires
        x <= u32::MAX - 63,
    ensures
        r % 64 == 0,
        x <= r < x + 64,
{
    proof {
        assert((((x + 63) as u32) & !63u32) % 64 == 0 && x <= (((x + 63) as u32) & !63u32) && ((((
        x + 63) as u32)) & !63u32) <= ((x + 63) as u32)) by (bit_vector)
            requires
                x <= u32::MAX - 63,
        ;
    }
    (x + 63) & !63u32
}

/// The least multiple of 8 that is at least `x`.
pub fn round_up_to_multiple_of_8(x: u32) -> (r: u32)
    requires
        x <= u32::MAX - 7,
    ensures
        r % 8 == 0,
        x <= r < x + 8,
{
    proof {
        assert((((x + 7) as u32) & !7u32) % 8 == 0 && x <= (((x + 7) as u32) & !7u32) && ((((x
            + 7) as u32)) & !7u32) <= ((x + 7) as u32)) by (bit_vector)
            requires
                x <= u32::MAX - 7,
        ;
    }
    (x + 7) & !7u32
}

} // verus!
