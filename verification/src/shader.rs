//! The shader that draws the image: one quad, placed by the view and textured through the
//! orientation.
use vstd::prelude::*;

verus! {

/// The shader, in WGSL. Its entry points are `vs` and `fs`; the uniform, the texture and the
/// sampler are bindings 0, 1 and 2 of group 0.
pub const SOURCE: &'static str = "
// Where the quad goes in clip space, and the orientation as a matrix about the centre of the
// texture, row by row.
struct Transform {
    scale: vec2<f32>,
    offset: vec2<f32>,
    uv: vec4<f32>,
};

@group(0) @binding(0) var<uniform> xf: Transform;
@group(0) @binding(1) var image: texture_2d<f32>;
@group(0) @binding(2) var image_sampler: sampler;

struct Corner {
    @builtin(position) position: vec4<f32>,
    @location(0) uv: vec2<f32>,
};

@vertex
fn vs(@builtin(vertex_index) index: u32) -> Corner {
    var corners = array<vec2<f32>, 6>(
        vec2<f32>(-1.0, -1.0),
        vec2<f32>(1.0, -1.0),
        vec2<f32>(1.0, 1.0),
        vec2<f32>(-1.0, -1.0),
        vec2<f32>(1.0, 1.0),
        vec2<f32>(-1.0, 1.0),
    );
    let corner = corners[index];
    // Displayed coordinates about the centre, with v growing downwards.
    let shown = vec2<f32>(corner.x, -corner.y) * 0.5;
    var out: Corner;
    out.position = vec4<f32>(corner * xf.scale + xf.offset, 0.0, 1.0);
    out.uv = vec2<f32>(dot(xf.uv.xy, shown), dot(xf.uv.zw, shown)) + vec2<f32>(0.5, 0.5);
    return out;
}

@fragment
fn fs(in: Corner) -> @location(0) vec4<f32> {
    return textureSample(image, image_sampler, in.uv);
}
";

} // verus!
