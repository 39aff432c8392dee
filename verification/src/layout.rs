//! The bind-group layouts and the pipelines built from them, as plain descriptions.

use vstd::prelude::*;

verus! {

/// Which shader stages a binding is visible to.
#[derive(Clone, Copy, Debug, PartialEq, Eq, Structural)]
pub enum Visibility {
    /// The fragment stage alone.
    Fragment,
    /// Both stages.
    Both,
}

/// What a binding is.
#[derive(Clone, Copy, Debug, PartialEq, Eq, Structural)]
pub enum BindingType {
    /// A uniform block addressed by a dynamic offset.
    DynamicUniform,
    /// A texture of unsigned integers, read one texel at a time.
    UintTexture,
    /// A texture of floats, read through a sampler where it is filterable.
    FloatTexture {
        /// Whether it is.
        filterable: bool,
    },
    /// A filtering sampler.
    FilteringSampler,
}

/// One binding of a layout.
#[derive(Clone, Copy, Debug, PartialEq, Eq, Structural)]
pub struct LayoutEntry {
    /// Its number.
    pub binding: u32,
    /// The stages it is visible to.
    pub visibility: Visibility,
    /// What it is.
    pub ty: BindingType,
}

/// One bind-group layout.
#[derive(Clone, Debug)]
pub struct Layout {
    /// What it is called, so a driver message names it.
    pub label: &'static str,
    /// Its bindings.
    pub entries: Vec<LayoutEntry>,
}

/// The layouts every pipeline is built from.
///
/// Three of them read a texture, and they are deliberately not one layout. A copy reads exactly
/// one texel at the fragment's own coordinate and binds no sampler at all, which is what keeps it
/// out of the filtering restrictions; an atlas reads through a filtering sampler and nothing else;
/// and anything that magnifies — a half-resolution target composited back up to size — needs both
/// a filtering sampler and a block of its own describing what it is magnifying.
#[derive(Clone, Debug)]
pub struct Layouts {
    /// The block describing the target being drawn into, and the side tables every instance
    /// indexes into.
    ///
    /// The block is read through a dynamic offset because it is per *target* rather than per
    /// frame: a frame writes into the composed target and into one for every isolated group, and a
    /// single rewritten block would give every pass of the frame the last one written.
    pub frame: Layout,
    /// One pipeline's instances.
    pub instances: Layout,
    /// A texture read through a filtering sampler.
    pub sampled: Layout,
    /// A texture read one texel at a time, with no sampler.
    pub loaded: Layout,
    /// A block of its own, a texture, and a filtering sampler.
    pub filtered: Layout,
    /// A frame's vector-composite instances, and the scratch they read.
    ///
    /// A table rather than a block addressed by a dynamic offset, because a pass composited one
    /// item at a time is one draw call over many instances and each instance needs its own quad and
    /// its own clip. The scratch is read one texel at a time with no sampler, so this layout
    /// carries none.
    pub vector: Layout,
    /// One application effect's parameters.
    ///
    /// A block addressed by a dynamic offset rather than a table read per instance, because the
    /// parameters are the same for every rectangle of a draw: two rectangles that disagree about
    /// them are two draws, and the batcher breaks the run where they do.
    pub effect: Layout,
}

/// A uniform block addressed by a dynamic offset, visible to both stages because the target's
/// extent is needed in one and its scale in both.
pub open spec fn uniform_at(binding: u32) -> LayoutEntry {
    LayoutEntry { binding, visibility: Visibility::Both, ty: BindingType::DynamicUniform }
}

/// A side table, read one texel at a time with no sampler.
pub open spec fn table_at(binding: u32) -> LayoutEntry {
    LayoutEntry { binding, visibility: Visibility::Both, ty: BindingType::UintTexture }
}

/// A texture the fragment stage reads.
pub open spec fn texture_at(binding: u32, filterable: bool) -> LayoutEntry {
    LayoutEntry {
        binding,
        visibility: Visibility::Fragment,
        ty: BindingType::FloatTexture { filterable },
    }
}

/// A sampler the fragment stage reads through.
pub open spec fn sampler_at(binding: u32) -> LayoutEntry {
    LayoutEntry { binding, visibility: Visibility::Fragment, ty: BindingType::FilteringSampler }
}

/// A uniform block addressed by a dynamic offset.
fn dynamic_uniform(binding: u32) -> (r: LayoutEntry)
    ensures
        r == uniform_at(binding),
{
    LayoutEntry { binding, visibility: Visibility::Both, ty: BindingType::DynamicUniform }
}

/// A side table, read one texel at a time with no sampler.
fn table(binding: u32) -> (r: LayoutEntry)
    ensures
        r == table_at(binding),
{
    LayoutEntry { binding, visibility: Visibility::Both, ty: BindingType::UintTexture }
}

/// A texture the fragment stage reads.
fn texture(binding: u32, filterable: bool) -> (r: LayoutEntry)
    ensures
        r == texture_at(binding, filterable),
{
    LayoutEntry {
        binding,
        visibility: Visibility::Fragment,
        ty: BindingType::FloatTexture { filterable },
    }
}

/// A sampler the fragment stage reads through.
fn sampler(binding: u32) -> (r: LayoutEntry)
    ensures
        r == sampler_at(binding),
{
    LayoutEntry { binding, visibility: Visibility::Fragment, ty: BindingType::FilteringSampler }
}

/// Whether a layout has these bindings under this name.
pub open spec fn described(layout: Layout, label: Seq<char>, entries: Seq<LayoutEntry>) -> bool {
    layout.label@ == label && layout.entries@ == entries
}

/// Whether what both stages read is visible to both and what only a fragment reads is visible to that
/// alone, and a texture is read through a sampler exactly where it filters.
pub open spec fn reads_where_it_may(layout: Layout) -> bool {
    &&& forall|i: int|
        0 <= i < layout.entries@.len() ==> match (#[trigger] layout.entries@[i]).ty {
            BindingType::DynamicUniform | BindingType::UintTexture => layout.entries@[i].visibility
                == Visibility::Both,
            BindingType::FloatTexture { .. } | BindingType::FilteringSampler =>
                layout.entries@[i].visibility == Visibility::Fragment,
        }
    &&& (exists|i: int|
        0 <= i < layout.entries@.len() && (#[trigger] layout.entries@[i]).ty
            == BindingType::FilteringSampler) <==> (exists|i: int|
        0 <= i < layout.entries@.len() && (#[trigger] layout.entries@[i]).ty
            == BindingType::FloatTexture { filterable: true })
}

/// Whether a layout's bindings are numbered from nothing, each once and in order.
pub open spec fn numbered(layout: Layout) -> bool {
    forall|i: int|
        0 <= i < layout.entries@.len() ==> (#[trigger] layout.entries@[i]).binding == i
}

impl Layouts {
    /// Whether every layout is numbered.
    pub open spec fn wf(self) -> bool {
        &&& numbered(self.frame)
        &&& numbered(self.instances)
        &&& numbered(self.sampled)
        &&& numbered(self.loaded)
        &&& numbered(self.filtered)
        &&& numbered(self.vector)
        &&& numbered(self.effect)
    }

    /// The layouts.
    pub fn new() -> (r: Layouts)
        ensures
            r.wf(),
            described(
                r.frame,
                "zgui.bind.frame"@,
                seq![uniform_at(0), table_at(1), table_at(2), table_at(3), table_at(4)],
            ),
            described(r.effect, "zgui.bind.effect"@, seq![uniform_at(0)]),
            described(r.instances, "zgui.bind.instances"@, seq![table_at(0)]),
            described(
                r.sampled,
                "zgui.bind.sampled"@,
                seq![texture_at(0, true), sampler_at(1)],
            ),
            described(
                r.filtered,
                "zgui.bind.filtered"@,
                seq![uniform_at(0), texture_at(1, true), sampler_at(2)],
            ),
            described(r.vector, "zgui.bind.vector"@, seq![table_at(0), texture_at(1, false)]),
            described(r.loaded, "zgui.bind.loaded"@, seq![texture_at(0, false)]),
            reads_where_it_may(r.frame),
            reads_where_it_may(r.effect),
            reads_where_it_may(r.instances),
            reads_where_it_may(r.sampled),
            reads_where_it_may(r.filtered),
            reads_where_it_may(r.vector),
            reads_where_it_may(r.loaded),
            r.frame.entries@[0].ty == BindingType::DynamicUniform,
            forall|i: int|
                1 <= i < 5 ==> (#[trigger] r.frame.entries@[i]).ty == BindingType::UintTexture,
            r.effect.entries@[0].ty == BindingType::DynamicUniform,
            r.instances.entries@[0].ty == BindingType::UintTexture,
            r.sampled.entries@[0].ty == (BindingType::FloatTexture { filterable: true }),
            r.sampled.entries@[1].ty == BindingType::FilteringSampler,
            r.filtered.entries@[0].ty == BindingType::DynamicUniform,
            r.filtered.entries@[1].ty == (BindingType::FloatTexture { filterable: true }),
            r.filtered.entries@[2].ty == BindingType::FilteringSampler,
            r.vector.entries@[0].ty == BindingType::UintTexture,
            r.vector.entries@[1].ty == (BindingType::FloatTexture { filterable: false }),
            r.loaded.entries@[0].ty == (BindingType::FloatTexture { filterable: false }),
    {
        let frame = vec![dynamic_uniform(0), table(1), table(2), table(3), table(4)];
        let effect = vec![dynamic_uniform(0)];
        let instances = vec![table(0)];
        let sampled = vec![texture(0, true), sampler(1)];
        let filtered = vec![dynamic_uniform(0), texture(1, true), sampler(2)];
        let vector = vec![table(0), texture(1, false)];
        let loaded = vec![texture(0, false)];
        assert(frame@ =~= seq![
            uniform_at(0),
            table_at(1),
            table_at(2),
            table_at(3),
            table_at(4),
        ]);
        assert(effect@ =~= seq![uniform_at(0)]);
        assert(instances@ =~= seq![table_at(0)]);
        assert(sampled@ =~= seq![texture_at(0, true), sampler_at(1)]);
        assert(filtered@ =~= seq![uniform_at(0), texture_at(1, true), sampler_at(2)]);
        assert(vector@ =~= seq![table_at(0), texture_at(1, false)]);
        assert(loaded@ =~= seq![texture_at(0, false)]);
        assert(sampled@[0].ty == BindingType::FloatTexture { filterable: true });
        assert(sampled@[1].ty == BindingType::FilteringSampler);
        assert(filtered@[1].ty == BindingType::FloatTexture { filterable: true });
        assert(filtered@[2].ty == BindingType::FilteringSampler);
        Layouts {
            frame: Layout { label: "zgui.bind.frame", entries: frame },
            effect: Layout { label: "zgui.bind.effect", entries: effect },
            instances: Layout { label: "zgui.bind.instances", entries: instances },
            sampled: Layout { label: "zgui.bind.sampled", entries: sampled },
            filtered: Layout { label: "zgui.bind.filtered", entries: filtered },
            vector: Layout { label: "zgui.bind.vector", entries: vector },
            loaded: Layout { label: "zgui.bind.loaded", entries: loaded },
        }
    }
}

/// How what a pipeline draws meets what is there.
#[derive(Clone, Copy, Debug, PartialEq, Eq, Structural)]
pub enum Blending {
    /// It replaces it.
    Replace,
    /// It composites over it, premultiplied.
    Premultiplied,
}

/// One pipeline of the coverage rasteriser.
#[derive(Clone, Debug)]
pub struct RasterPipeline {
    /// The layout it reads through.
    pub layout: Layout,
    /// The name of its vertex stage.
    pub vertex: &'static str,
    /// The name of its fragment stage.
    pub fragment: &'static str,
    /// How what it draws meets what is there.
    pub blending: Blending,
}

/// The two pipelines of the coverage rasteriser.
#[derive(Clone, Debug)]
pub struct Pipelines {
    /// Fills one outline into the accumulation texture.
    pub coverage: RasterPipeline,
    /// Converts one accumulated layer into the straight one.
    pub resolve: RasterPipeline,
}

impl Pipelines {
    /// Both of them.
    ///
    /// Outlines within one pass composite over each other, and that is only a fixed-function blend
    /// in premultiplied form. A conversion replaces; blending it would make the result depend on
    /// what the layer happened to hold.
    pub fn new() -> (r: Pipelines)
        ensures
            numbered(r.coverage.layout),
            numbered(r.resolve.layout),
            described(
                r.coverage.layout,
                "zgui.vector.coverage"@,
                seq![table_at(0), table_at(1), table_at(2), table_at(3)],
            ),
            r.coverage.vertex@ == "vs_coverage"@,
            r.coverage.fragment@ == "fs_coverage"@,
            r.coverage.blending == Blending::Premultiplied,
            described(
                r.resolve.layout,
                "zgui.vector.coverage.resolve"@,
                seq![texture_at(0, false)],
            ),
            r.resolve.vertex@ == "vs_resolve"@,
            r.resolve.fragment@ == "fs_resolve"@,
            r.resolve.blending == Blending::Replace,
    {
        let coverage = vec![table(0), table(1), table(2), table(3)];
        let resolve = vec![texture(0, false)];
        assert(coverage@ =~= seq![table_at(0), table_at(1), table_at(2), table_at(3)]);
        assert(resolve@ =~= seq![texture_at(0, false)]);
        Pipelines {
            coverage: RasterPipeline {
                layout: Layout { label: "zgui.vector.coverage", entries: coverage },
                vertex: "vs_coverage",
                fragment: "fs_coverage",
                blending: Blending::Premultiplied,
            },
            resolve: RasterPipeline {
                layout: Layout { label: "zgui.vector.coverage.resolve", entries: resolve },
                vertex: "vs_resolve",
                fragment: "fs_resolve",
                blending: Blending::Replace,
            },
        }
    }
}

} // verus!
