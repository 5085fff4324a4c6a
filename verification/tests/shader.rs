use vitals_rain::shader::{FRAG_FOOTER, FRAG_HEADER, VERT_SRC, load_shader_source};

#[test]
fn fragment_source_wraps_the_code() {
    let code = "void mainImage(out vec4 c, in vec2 p) { c = vec4(u_mem); }";
    let s = load_shader_source(code);
    assert_eq!(s, format!("{FRAG_HEADER}\n{code}\n{FRAG_FOOTER}"));
    assert!(s.starts_with("#version 300 es\n"));
    assert!(s.contains("uniform float u_core_phases[64];"));
    assert!(s.ends_with("mainImage(out_color, gl_FragCoord.xy);\n}\n"));
}

#[test]
fn fragment_source_of_empty_code() {
    assert_eq!(load_shader_source(""), format!("{FRAG_HEADER}\n\n{FRAG_FOOTER}"));
}

#[test]
fn vertex_source_covers_the_surface() {
    assert!(VERT_SRC.starts_with("#version 300 es"));
    assert!(VERT_SRC.contains("gl_VertexID"));
}
