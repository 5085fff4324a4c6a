//! The sources of the shader program that draws the background.
use vstd::prelude::*;

verus! {

/// The vertex shader: one quad that covers the whole surface.
pub const VERT_SRC: &'static str = r#"#version 300 es
precision highp float;
const vec2 verts[4] = vec2[4](
    vec2(-1.0, -1.0),
    vec2( 1.0, -1.0),
    vec2(-1.0,  1.0),
    vec2( 1.0,  1.0)
);
void main() {
    gl_Position = vec4(verts[gl_VertexID], 0.0, 1.0);
}
"#;

/// What comes before the fragment shader's own code: the version, the
/// precision and the uniforms that each frame sets.
pub const FRAG_HEADER: &'static str = r#"#version 300 es
precision highp float;

uniform vec3  iResolution;
uniform float iTime;
uniform float u_core_phases[64];
uniform int   u_num_cores;
uniform float u_mem;
uniform float u_temp;

out vec4 out_color;
"#;

/// What comes after the fragment shader's own code: the entry point, which
/// calls its `mainImage`.
pub const FRAG_FOOTER: &'static str = r#"
void main() {
    mainImage(out_color, gl_FragCoord.xy);
}
"#;

/// The complete fragment shader around the code `user`: the header, a line
/// break, the code, a line break and the footer.
pub open spec fn fragment_source(user: Seq<char>) -> Seq<char> {
    FRAG_HEADER@ + "\n"@ + user + "\n"@ + FRAG_FOOTER@
}

/// The fragment shader holds the header at its start, then one line break,
/// then the whole code, then one line break, then the footer at its end:
/// nothing of the code is left out or changed.
pub proof fn law_fragment_holds_code(user: Seq<char>)
    ensures
        fragment_source(user) == FRAG_HEADER@ + "\n"@ + user + "\n"@ + FRAG_FOOTER@,
        fragment_source(user).len() == FRAG_HEADER@.len() + user.len() + 2 + FRAG_FOOTER@.len(),
        fragment_source(user).subrange(FRAG_HEADER@.len() + 1int, FRAG_HEADER@.len() + 1 + user.len() as int)
            == user,
        fragment_source(user)[FRAG_HEADER@.len() as int] == '\n',
        fragment_source(user)[FRAG_HEADER@.len() + 1 + user.len() as int] == '\n',
        fragment_source(user).take(FRAG_HEADER@.len() as int) == FRAG_HEADER@,
        fragment_source(user).skip(fragment_source(user).len() - FRAG_FOOTER@.len())
            == FRAG_FOOTER@,
{
    reveal_strlit("\n");
    let h = FRAG_HEADER@;
    let f = FRAG_FOOTER@;
    let r = h + "\n"@ + user + "\n"@ + f;
    assert(r.subrange(h.len() + 1int, h.len() + 1 + user.len() as int) =~= user);
    assert(r.take(h.len() as int) =~= h);
    assert(r.skip(r.len() - f.len()) =~= f);
}

/// Builds the complete fragment shader around the code `user_code`, which
/// defines `mainImage`.
pub fn load_shader_source(user_code: &str) -> (r: String)
    ensures
        r@ == fragment_source(user_code@),
        r@ == FRAG_HEADER@ + "\n"@ + user_code@ + "\n"@ + FRAG_FOOTER@,
        r@.len() == FRAG_HEADER@.len() + user_code@.len() + 2 + FRAG_FOOTER@.len(),
        r@.subrange(FRAG_HEADER@.len() + 1int, FRAG_HEADER@.len() + 1 + user_code@.len() as int)
            == user_code@,
        r@.take(FRAG_HEADER@.len() as int) == FRAG_HEADER@,
        r@.skip(r@.len() - FRAG_FOOTER@.len()) == FRAG_FOOTER@,
{
    proof {
        law_fragment_holds_code(user_code@);
    }
    let mut r = FRAG_HEADER.to_owned();
    r.append("\n");
    r.append(user_code);
    r.append("\n");
    r.append(FRAG_FOOTER);
    r
}

} // verus!
