//! The guest-facing OpenGL ES functions that the host answers itself:
//! identification strings, size estimates, and the stubs of OpenGL ES 2.0
//! and of extensions that are not supported.
use vstd::prelude::*;
use std::collections::HashMap;
use vstd::utf8::encode_utf8;
use crate::environment::{Environment, FrameworkState};
use crate::mem::{spliced, u32_le_bytes};

verus! {

broadcast use vstd::std_specs::hash::group_hash_axioms;

pub const GL_VENDOR: u32 = 0x1F00;
pub const GL_RENDERER: u32 = 0x1F01;
pub const GL_VERSION: u32 = 0x1F02;
pub const GL_EXTENSIONS: u32 = 0x1F03;

pub const GL_UNSIGNED_BYTE: u32 = 0x1401;
pub const GL_ALPHA: u32 = 0x1906;
pub const GL_RGB: u32 = 0x1907;
pub const GL_RGBA: u32 = 0x1908;
pub const GL_LUMINANCE: u32 = 0x1909;
pub const GL_LUMINANCE_ALPHA: u32 = 0x190A;
pub const GL_BGRA_EXT: u32 = 0x80E1;
pub const GL_UNSIGNED_SHORT_4_4_4_4: u32 = 0x8033;
pub const GL_UNSIGNED_SHORT_5_5_5_1: u32 = 0x8034;
pub const GL_UNSIGNED_SHORT_5_6_5: u32 = 0x8363;

/// The guest copies of the identification strings, by name, made on first
/// request.
pub struct GlesState {
    pub strings_cache: HashMap<u32, u32>,
}

impl GlesState {
    pub fn new() -> (s: GlesState)
        ensures
            s.strings_cache@ == Map::<u32, u32>::empty(),
    {
        GlesState { strings_cache: HashMap::new() }
    }
}

/// The text `glGetString` gives for `name`.
pub open spec fn gl_text(name: u32) -> &'static str {
    if name == GL_VENDOR {
        "Imagination Technologies"
    } else if name == GL_RENDERER {
        "PowerVR MBXLite with VGPLite"
    } else if name == GL_VERSION {
        "OpenGL ES-CM 1.1 (76)"
    } else if name == GL_EXTENSIONS {
        "GL_APPLE_framebuffer_multisample GL_APPLE_texture_max_level GL_EXT_discard_framebuffer GL_EXT_texture_filter_anisotropic GL_EXT_texture_lod_bias GL_IMG_read_format GL_IMG_texture_compression_pvrtc GL_IMG_texture_format_BGRA8888 GL_OES_blend_subtract GL_OES_compressed_paletted_texture GL_OES_depth24 GL_OES_draw_texture GL_OES_framebuffer_object GL_OES_mapbuffer GL_OES_matrix_palette GL_OES_point_size_array GL_OES_point_sprite GL_OES_read_format GL_OES_rgb8_rgba8 GL_OES_texture_mirrored_repeat GL_OES_vertex_array_object "
    } else {
        "Unknown"
    }
}

fn gl_text_exec(name: u32) -> (s: &'static str)
    ensures
        s == gl_text(name),
{
    if name == GL_VENDOR {
        "Imagination Technologies"
    } else if name == GL_RENDERER {
        "PowerVR MBXLite with VGPLite"
    } else if name == GL_VERSION {
        "OpenGL ES-CM 1.1 (76)"
    } else if name == GL_EXTENSIONS {
        "GL_APPLE_framebuffer_multisample GL_APPLE_texture_max_level GL_EXT_discard_framebuffer GL_EXT_texture_filter_anisotropic GL_EXT_texture_lod_bias GL_IMG_read_format GL_IMG_texture_compression_pvrtc GL_IMG_texture_format_BGRA8888 GL_OES_blend_subtract GL_OES_compressed_paletted_texture GL_OES_depth24 GL_OES_draw_texture GL_OES_framebuffer_object GL_OES_mapbuffer GL_OES_matrix_palette GL_OES_point_size_array GL_OES_point_sprite GL_OES_read_format GL_OES_rgb8_rgba8 GL_OES_texture_mirrored_repeat GL_OES_vertex_array_object "
    } else {
        "Unknown"
    }
}

pub open spec fn with_gles(fs: FrameworkState, g: GlesState) -> FrameworkState {
    FrameworkState { opengles: g, ..fs }
}

/// The guest address of an identification string: the cached copy, or a
/// fresh NUL-terminated copy that is then cached.
#[allow(non_snake_case)]
pub fn glGetString(env: &mut Environment, name: u32) -> (r: u32)
    requires
        old(env).wf(),
        old(env).mem@.len() + encode_utf8(gl_text(name)@).len() + 1 <= u32::MAX,
    ensures
        final(env).objc.autorelease_pool@ == old(env).objc.autorelease_pool@,
        final(env).wf(),
        old(env).framework_state.opengles.strings_cache@.contains_key(name) ==> r == old(env).framework_state.opengles.strings_cache@[name]
            && *final(env) == *old(env),
        !old(env).framework_state.opengles.strings_cache@.contains_key(name) ==> {
            &&& r == old(env).mem@.len()
            &&& final(env).mem@ == old(env).mem@ + encode_utf8(gl_text(name)@) + seq![0u8]
            &&& final(env).objc == old(env).objc
            &&& final(env).framework_state.opengles.strings_cache@ == old(env).framework_state.opengles.strings_cache@.insert(name, r)
            &&& final(env).framework_state == with_gles(old(env).framework_state, final(env).framework_state.opengles)
        },
{
    if let Some(p) = env.framework_state.opengles.strings_cache.get(&name) {
        return *p;
    }
    let s = gl_text_exec(name);
    let bytes = crate::unicode::utf8_bytes(s);
    let p = env.mem.alloc_and_write_cstr(bytes.as_slice());
    env.framework_state.opengles.strings_cache.insert(name, p);
    p
}

/// Bytes per pixel of a texture format and type; `None` for those that
/// are not supported.
pub open spec fn bytes_per_pixel(format: u32, type_: u32) -> Option<u32> {
    if type_ == GL_UNSIGNED_BYTE {
        if format == GL_ALPHA || format == GL_LUMINANCE {
            Some(1)
        } else if format == GL_LUMINANCE_ALPHA {
            Some(2)
        } else if format == GL_RGB {
            Some(3)
        } else if format == GL_RGBA || format == GL_BGRA_EXT {
            Some(4)
        } else {
            None
        }
    } else if type_ == GL_UNSIGNED_SHORT_5_6_5 || type_ == GL_UNSIGNED_SHORT_4_4_4_4 || type_
        == GL_UNSIGNED_SHORT_5_5_5_1 {
        Some(2)
    } else {
        None
    }
}

/// The size in bytes of `pixel_count` pixels of a supported format and
/// type.
pub fn image_size_estimate(pixel_count: u32, format: u32, type_: u32) -> (r: u32)
    requires
        bytes_per_pixel(format, type_) is Some,
        pixel_count * bytes_per_pixel(format, type_)->0 <= u32::MAX,
    ensures
        r == pixel_count * bytes_per_pixel(format, type_)->0,
{
    let bpp: u32 = if type_ == GL_UNSIGNED_BYTE {
        if format == GL_ALPHA || format == GL_LUMINANCE {
            1
        } else if format == GL_LUMINANCE_ALPHA {
            2
        } else if format == GL_RGB {
            3
        } else {
            4
        }
    } else {
        2
    };
    pixel_count * bpp
}

/// Memory after the names 1 to `k` were written as 32-bit words from
/// `arrays` on.
pub open spec fn names_written(mem: Seq<u8>, arrays: u32, k: int) -> Seq<u8>
    decreases k,
{
    if k <= 0 {
        mem
    } else {
        spliced(names_written(mem, arrays, k - 1), arrays + 4 * (k - 1), u32_le_bytes(k as u32))
    }
}

proof fn lemma_names_written_len(mem: Seq<u8>, arrays: u32, k: int)
    requires
        0 <= k,
        arrays + 4 * k <= mem.len(),
    ensures
        names_written(mem, arrays, k).len() == mem.len(),
    decreases k,
{
    if k > 0 {
        lemma_names_written_len(mem, arrays, k - 1);
    }
}

/// Writes the names 1 to `n` to `arrays` (nothing for `n` of zero or less).
fn write_names(env: &mut Environment, n: i32, arrays: u32)
    requires
        old(env).wf(),
        n > 0 ==> arrays + 4 * n <= old(env).mem@.len(),
    ensures
        final(env).wf(),
        final(env).mem@ == names_written(old(env).mem@, arrays, n as int),
        final(env).mem.live_blocks() == old(env).mem.live_blocks(),
        final(env).objc == old(env).objc,
        final(env).framework_state == old(env).framework_state,
{
    let mut i: i32 = 0;
    proof {
        if n <= 0 {
            assert(names_written(old(env).mem@, arrays, n as int) == old(env).mem@);
        }
    }
    while i < n
        invariant
            0 <= i,
            i <= n || n <= 0,
            n <= 0 ==> i == 0,
            n > 0 ==> arrays + 4 * n <= old(env).mem@.len(),
            env.wf(),
            env.mem@ == names_written(old(env).mem@, arrays, i as int),
            env.mem@.len() == old(env).mem@.len(),
            env.mem.live_blocks() == old(env).mem.live_blocks(),
            env.objc == old(env).objc,
            env.framework_state == old(env).framework_state,
        decreases n - i,
    {
        proof {
            env.mem.lemma_len_bound();
            lemma_names_written_len(old(env).mem@, arrays, i as int);
        }
        let addr = arrays + 4 * (i as u32);
        env.mem.write_u32(addr, (i + 1) as u32);
        i = i + 1;
        proof {
            lemma_names_written_len(old(env).mem@, arrays, i as int);
        }
    }
}

#[allow(non_snake_case)]
pub fn glGenVertexArraysOES(env: &mut Environment, n: i32, arrays: u32)
    requires
        old(env).wf(),
        n > 0 ==> arrays + 4 * n <= old(env).mem@.len(),
    ensures
        final(env).wf(),
        final(env).mem@ == names_written(old(env).mem@, arrays, n as int),
        final(env).mem.live_blocks() == old(env).mem.live_blocks(),
        final(env).objc == old(env).objc,
        final(env).framework_state == old(env).framework_state,
{
    write_names(env, n, arrays);
}

#[allow(non_snake_case)]
pub fn glGenVertexArrays(env: &mut Environment, n: i32, arrays: u32)
    requires
        old(env).wf(),
        n > 0 ==> arrays + 4 * n <= old(env).mem@.len(),
    ensures
        final(env).wf(),
        final(env).mem@ == names_written(old(env).mem@, arrays, n as int),
        final(env).mem.live_blocks() == old(env).mem.live_blocks(),
        final(env).objc == old(env).objc,
        final(env).framework_state == old(env).framework_state,
{
    write_names(env, n, arrays);
}

/// `new` is `old` with the 32-bit word `v` written at `p`.
pub open spec fn wrote_word(old: Environment, new: Environment, p: u32, v: u32) -> bool {
    &&& new.mem@ == spliced(old.mem@, p as int, u32_le_bytes(v))
    &&& new.mem.live_blocks() == old.mem.live_blocks()
    &&& new.objc == old.objc
    &&& new.framework_state == old.framework_state
}

fn write_word(env: &mut Environment, p: u32, v: u32)
    requires
        old(env).wf(),
        p + 4 <= old(env).mem@.len(),
    ensures
        final(env).wf(),
        wrote_word(*old(env), *final(env), p, v),
{
    env.mem.write_u32(p, v);
}

/// Mapped buffers are not supported: stores null.
#[allow(non_snake_case)]
pub fn glGetBufferPointervOES(env: &mut Environment, target: u32, pname: u32, params: u32)
    requires
        old(env).wf(),
        params + 4 <= old(env).mem@.len(),
    ensures
        final(env).wf(),
        wrote_word(*old(env), *final(env), params, 0),
{
    write_word(env, params, 0);
}

/// Texture parameters are not tracked: stores 0.
#[allow(non_snake_case)]
pub fn glGetTexParameteriv(env: &mut Environment, target: u32, pname: u32, params: u32)
    requires
        old(env).wf(),
        params + 4 <= old(env).mem@.len(),
    ensures
        final(env).wf(),
        wrote_word(*old(env), *final(env), params, 0),
{
    write_word(env, params, 0);
}

#[allow(non_snake_case)]
pub fn glPointSizePointerOES(env: &mut Environment, type_: u32, stride: i32, pointer: u32)
    ensures
        *final(env) == *old(env),
{
}

/// Every shader compiles: stores true.
#[allow(non_snake_case)]
pub fn glGetShaderiv(env: &mut Environment, shader: u32, pname: u32, params: u32)
    requires
        old(env).wf(),
        params + 4 <= old(env).mem@.len(),
    ensures
        final(env).wf(),
        wrote_word(*old(env), *final(env), params, 1),
{
    write_word(env, params, 1);
}

/// Every program links: stores true.
#[allow(non_snake_case)]
pub fn glGetProgramiv(env: &mut Environment, program: u32, pname: u32, params: u32)
    requires
        old(env).wf(),
        params + 4 <= old(env).mem@.len(),
    ensures
        final(env).wf(),
        wrote_word(*old(env), *final(env), params, 1),
{
    write_word(env, params, 1);
}

/// An empty log: a zero length and an empty string, where asked for.
pub open spec fn empty_log_written(old: Environment, new: Environment, length: u32, info_log: u32) -> bool {
    let m1 = if length != 0 {
        spliced(old.mem@, length as int, u32_le_bytes(0))
    } else {
        old.mem@
    };
    &&& new.mem@ == if info_log != 0 {
        m1.update(info_log as int, 0u8)
    } else {
        m1
    }
    &&& new.mem.live_blocks() == old.mem.live_blocks()
    &&& new.objc == old.objc
    &&& new.framework_state == old.framework_state
}

fn write_empty_log(env: &mut Environment, length: u32, info_log: u32)
    requires
        old(env).wf(),
        length != 0 ==> length + 4 <= old(env).mem@.len(),
        info_log != 0 ==> info_log < old(env).mem@.len(),
    ensures
        final(env).wf(),
        empty_log_written(*old(env), *final(env), length, info_log),
{
    if length != 0 {
        env.mem.write_u32(length, 0);
    }
    if info_log != 0 {
        env.mem.write(info_log, 0);
    }
}

#[allow(non_snake_case)]
pub fn glGetShaderInfoLog(env: &mut Environment, shader: u32, buf_size: i32, length: u32, info_log: u32)
    requires
        old(env).wf(),
        length != 0 ==> length + 4 <= old(env).mem@.len(),
        info_log != 0 ==> info_log < old(env).mem@.len(),
    ensures
        final(env).wf(),
        empty_log_written(*old(env), *final(env), length, info_log),
{
    write_empty_log(env, length, info_log);
}

#[allow(non_snake_case)]
pub fn glGetProgramInfoLog(env: &mut Environment, program: u32, buf_size: i32, length: u32, info_log: u32)
    requires
        old(env).wf(),
        length != 0 ==> length + 4 <= old(env).mem@.len(),
        info_log != 0 ==> info_log < old(env).mem@.len(),
    ensures
        final(env).wf(),
        empty_log_written(*old(env), *final(env), length, info_log),
{
    write_empty_log(env, length, info_log);
}

/// Programs are not supported: always the name 1.
#[allow(non_snake_case)]
pub fn glCreateProgram(env: &mut Environment) -> (r: u32)
    ensures
        r == 1,
        *final(env) == *old(env),
{
    1
}

/// Shaders are not supported: always the name 1.
#[allow(non_snake_case)]
pub fn glCreateShader(env: &mut Environment, type_: u32) -> (r: u32)
    ensures
        r == 1,
        *final(env) == *old(env),
{
    1
}

/// No uniform is ever found.
#[allow(non_snake_case)]
pub fn glGetUniformLocation(env: &mut Environment, program: u32, name: u32) -> (r: i32)
    ensures
        r == -1,
        *final(env) == *old(env),
{
    -1
}

/// No vertex array object exists.
#[allow(non_snake_case)]
pub fn glIsVertexArrayOES(env: &mut Environment, array: u32) -> (r: u8)
    ensures
        r == 0,
        *final(env) == *old(env),
{
    0
}

#[allow(non_snake_case)]
pub fn glDrawTexiOES(env: &mut Environment, x: i32, y: i32, z: i32, width: i32, height: i32)
    ensures
        *final(env) == *old(env),
{
}

#[allow(non_snake_case)]
pub fn glDrawTexxOES(env: &mut Environment, x: i32, y: i32, z: i32, width: i32, height: i32)
    ensures
        *final(env) == *old(env),
{
}

#[allow(non_snake_case)]
pub fn glDrawTexfvOES(env: &mut Environment, coords: u32)
    ensures
        *final(env) == *old(env),
{
}

#[allow(non_snake_case)]
pub fn glDrawTexivOES(env: &mut Environment, coords: u32)
    ensures
        *final(env) == *old(env),
{
}

#[allow(non_snake_case)]
pub fn glDrawTexxvOES(env: &mut Environment, coords: u32)
    ensures
        *final(env) == *old(env),
{
}

#[allow(non_snake_case)]
pub fn glResolveMultisampleFramebufferAPPLE(env: &mut Environment)
    ensures
        *final(env) == *old(env),
{
}

#[allow(non_snake_case)]
pub fn glDiscardFramebufferEXT(env: &mut Environment, target: u32, num_attachments: i32, attachments: u32)
    ensures
        *final(env) == *old(env),
{
}

#[allow(non_snake_case)]
pub fn glBindVertexArrayOES(env: &mut Environment, array: u32)
    ensures
        *final(env) == *old(env),
{
}

#[allow(non_snake_case)]
pub fn glDeleteVertexArraysOES(env: &mut Environment, n: i32, arrays: u32)
    ensures
        *final(env) == *old(env),
{
}

#[allow(non_snake_case)]
pub fn glCurrentPaletteMatrixOES(env: &mut Environment, matrixpaletteindex: u32)
    ensures
        *final(env) == *old(env),
{
}

#[allow(non_snake_case)]
pub fn glLoadPaletteFromModelViewMatrixOES(env: &mut Environment)
    ensures
        *final(env) == *old(env),
{
}

#[allow(non_snake_case)]
pub fn glMatrixIndexPointerOES(env: &mut Environment, size: i32, type_: u32, stride: i32, pointer: u32)
    ensures
        *final(env) == *old(env),
{
}

#[allow(non_snake_case)]
pub fn glWeightPointerOES(env: &mut Environment, size: i32, type_: u32, stride: i32, pointer: u32)
    ensures
        *final(env) == *old(env),
{
}

#[allow(non_snake_case)]
pub fn glBindAttribLocation(env: &mut Environment, program: u32, index: u32, name: u32)
    ensures
        *final(env) == *old(env),
{
}

#[allow(non_snake_case)]
pub fn glUniformMatrix4fv(env: &mut Environment, location: i32, count: i32, transpose: u8, value: u32)
    ensures
        *final(env) == *old(env),
{
}

#[allow(non_snake_case)]
pub fn glUseProgram(env: &mut Environment, program: u32)
    ensures
        *final(env) == *old(env),
{
}

#[allow(non_snake_case)]
pub fn glDeleteProgram(env: &mut Environment, program: u32)
    ensures
        *final(env) == *old(env),
{
}

#[allow(non_snake_case)]
pub fn glDeleteShader(env: &mut Environment, shader: u32)
    ensures
        *final(env) == *old(env),
{
}

#[allow(non_snake_case)]
pub fn glCompileShader(env: &mut Environment, shader: u32)
    ensures
        *final(env) == *old(env),
{
}

#[allow(non_snake_case)]
pub fn glAttachShader(env: &mut Environment, program: u32, shader: u32)
    ensures
        *final(env) == *old(env),
{
}

#[allow(non_snake_case)]
pub fn glLinkProgram(env: &mut Environment, program: u32)
    ensures
        *final(env) == *old(env),
{
}

#[allow(non_snake_case)]
pub fn glShaderSource(env: &mut Environment, shader: u32, count: i32, string: u32, length: u32)
    ensures
        *final(env) == *old(env),
{
}

#[allow(non_snake_case)]
pub fn glEnableVertexAttribArray(env: &mut Environment, index: u32)
    ensures
        *final(env) == *old(env),
{
}

#[allow(non_snake_case)]
pub fn glDisableVertexAttribArray(env: &mut Environment, index: u32)
    ensures
        *final(env) == *old(env),
{
}

#[allow(non_snake_case)]
pub fn glVertexAttribPointer(env: &mut Environment, index: u32, size: i32, type_: u32, normalized: u8, stride: i32, pointer: u32)
    ensures
        *final(env) == *old(env),
{
}

#[allow(non_snake_case)]
pub fn glUniform1i(env: &mut Environment, location: i32, v0: i32)
    ensures
        *final(env) == *old(env),
{
}

#[allow(non_snake_case)]
pub fn glBindVertexArray(env: &mut Environment, array: u32)
    ensures
        *final(env) == *old(env),
{
}

#[allow(non_snake_case)]
pub fn glDeleteVertexArrays(env: &mut Environment, n: i32, arrays: u32)
    ensures
        *final(env) == *old(env),
{
}

pub const GL_NUM_COMPRESSED_TEXTURE_FORMATS: u32 = 0x86A2;

pub const GL_COMPRESSED_TEXTURE_FORMATS: u32 = 0x86A3;

pub const GL_MAX_TEXTURE_SIZE: u32 = 0x0D33;

/// The compressed texture formats that are supported: the four PVRTC
/// formats and the ten paletted formats.
pub open spec fn supported_compressed_formats() -> Seq<u32> {
    seq![
        0x8C03u32, 0x8C02, 0x8C01, 0x8C00, 0x8B92, 0x8B94, 0x8B90, 0x8B93, 0x8B91, 0x8B97, 0x8B99,
        0x8B95, 0x8B98, 0x8B96,
    ]
}

fn supported_compressed_format(i: usize) -> (f: u32)
    requires
        i < 14,
    ensures
        f == supported_compressed_formats()[i as int],
{
    let formats: [u32; 14] = [
        0x8C03, 0x8C02, 0x8C01, 0x8C00, 0x8B92, 0x8B94, 0x8B90, 0x8B93, 0x8B91, 0x8B97, 0x8B99, 0x8B95,
        0x8B98, 0x8B96,
    ];
    proof {
        assert(formats@ =~= supported_compressed_formats());
    }
    formats[i]
}

/// Memory after the first `k` of `words` were written as 32-bit words
/// from `p` on.
pub open spec fn words_written(mem: Seq<u8>, p: u32, words: Seq<u32>, k: int) -> Seq<u8>
    decreases k,
{
    if k <= 0 {
        mem
    } else {
        spliced(words_written(mem, p, words, k - 1), p + 4 * (k - 1), u32_le_bytes(words[k - 1]))
    }
}

proof fn lemma_words_written_len(mem: Seq<u8>, p: u32, words: Seq<u32>, k: int)
    requires
        0 <= k,
        p + 4 * k <= mem.len(),
    ensures
        words_written(mem, p, words, k).len() == mem.len(),
    decreases k,
{
    if k > 0 {
        lemma_words_written_len(mem, p, words, k - 1);
    }
}

/// The part of `glGetIntegerv` that the host answers without asking the
/// context: the compressed texture formats (their number, and the list),
/// two queries answered with 1, and the largest texture size, 2048; any
/// other query stores 1 where the thread has no context. Returns whether
/// the query was answered here; where it was not, the context answers it
/// and memory is unchanged.
#[allow(non_snake_case)]
pub fn glGetIntegerv(env: &mut Environment, pname: u32, params: u32, has_context: bool) -> (answered: bool)
    requires
        old(env).wf(),
        params + 4 * (if pname == GL_COMPRESSED_TEXTURE_FORMATS { 14int } else { 1int }) <= old(env).mem@.len(),
    ensures
        final(env).wf(),
        pname == GL_NUM_COMPRESSED_TEXTURE_FORMATS ==> answered && wrote_word(*old(env), *final(env), params, 14),
        pname == GL_COMPRESSED_TEXTURE_FORMATS ==> answered && final(env).mem@ == words_written(
            old(env).mem@,
            params,
            supported_compressed_formats(),
            14,
        ) && final(env).mem.live_blocks() == old(env).mem.live_blocks() && final(env).objc == old(env).objc
            && final(env).framework_state == old(env).framework_state,
        (pname == 0x8cdf || pname == 0x8d57) ==> answered && wrote_word(*old(env), *final(env), params, 1),
        pname == GL_MAX_TEXTURE_SIZE ==> answered && wrote_word(*old(env), *final(env), params, 2048),
        !(pname == GL_NUM_COMPRESSED_TEXTURE_FORMATS || pname == GL_COMPRESSED_TEXTURE_FORMATS || pname == 0x8cdf
            || pname == 0x8d57 || pname == GL_MAX_TEXTURE_SIZE) ==> if has_context {
            !answered && *final(env) == *old(env)
        } else {
            answered && wrote_word(*old(env), *final(env), params, 1)
        },
{
    if pname == GL_NUM_COMPRESSED_TEXTURE_FORMATS {
        write_word(env, params, 14);
        true
    } else if pname == GL_COMPRESSED_TEXTURE_FORMATS {
        let mut i: usize = 0;
        while i < 14
            invariant
                i <= 14,
                params + 56 <= old(env).mem@.len(),
                env.wf(),
                env.mem@ == words_written(old(env).mem@, params, supported_compressed_formats(), i as int),
                env.mem@.len() == old(env).mem@.len(),
                env.mem.live_blocks() == old(env).mem.live_blocks(),
                env.objc == old(env).objc,
                env.framework_state == old(env).framework_state,
            decreases 14 - i,
        {
            proof {
                env.mem.lemma_len_bound();
                lemma_words_written_len(old(env).mem@, params, supported_compressed_formats(), i as int);
            }
            let f = supported_compressed_format(i);
            env.mem.write_u32(params + 4 * (i as u32), f);
            i = i + 1;
            proof {
                lemma_words_written_len(old(env).mem@, params, supported_compressed_formats(), i as int);
            }
        }
        true
    } else if pname == 0x8cdf || pname == 0x8d57 {
        write_word(env, params, 1);
        true
    } else if pname == GL_MAX_TEXTURE_SIZE {
        write_word(env, params, 2048);
        true
    } else if !has_context {
        write_word(env, params, 1);
        true
    } else {
        false
    }
}

/// The part of `glGetBooleanv` that the host answers: without a context it
/// stores false (one byte). Returns whether it answered; where it did not,
/// the context answers and memory is unchanged.
#[allow(non_snake_case)]
pub fn glGetBooleanv(env: &mut Environment, pname: u32, params: u32, has_context: bool) -> (answered: bool)
    requires
        old(env).wf(),
        params < old(env).mem@.len(),
    ensures
        final(env).wf(),
        answered == !has_context,
        has_context ==> *final(env) == *old(env),
        !has_context ==> final(env).mem@ == old(env).mem@.update(params as int, 0u8) && final(env).mem.live_blocks()
            == old(env).mem.live_blocks() && final(env).objc == old(env).objc && final(env).framework_state
            == old(env).framework_state,
{
    if has_context {
        return false;
    }
    env.mem.write(params, 0);
    true
}

/// The part of `glGetFloatv` that the host answers: without a context it
/// stores 0.0, whose bits are all zero. Returns whether it answered.
#[allow(non_snake_case)]
pub fn glGetFloatv(env: &mut Environment, pname: u32, params: u32, has_context: bool) -> (answered: bool)
    requires
        old(env).wf(),
        params + 4 <= old(env).mem@.len(),
    ensures
        final(env).wf(),
        answered == !has_context,
        has_context ==> *final(env) == *old(env),
        !has_context ==> wrote_word(*old(env), *final(env), params, 0),
{
    if has_context {
        return false;
    }
    write_word(env, params, 0);
    true
}

/// The part of `glGetPointerv` that the host answers: without a context it
/// stores a null pointer. Returns whether it answered.
#[allow(non_snake_case)]
pub fn glGetPointerv(env: &mut Environment, pname: u32, params: u32, has_context: bool) -> (answered: bool)
    requires
        old(env).wf(),
        params + 4 <= old(env).mem@.len(),
    ensures
        final(env).wf(),
        answered == !has_context,
        has_context ==> *final(env) == *old(env),
        !has_context ==> wrote_word(*old(env), *final(env), params, 0),
{
    if has_context {
        return false;
    }
    write_word(env, params, 0);
    true
}

/// What `glGetError` reports, given what the context returned (`None`
/// where the thread has no context): no error without a context; the
/// context's error, or no error where errors are set to be ignored.
#[allow(non_snake_case)]
pub fn glGetError(context_error: Option<u32>, ignore_gl_errors: bool) -> (r: u32)
    ensures
        r == match context_error {
            None => 0,
            Some(err) => if ignore_gl_errors { 0 } else { err },
        },
{
    match context_error {
        None => 0,
        Some(err) => {
            if err != 0 && ignore_gl_errors {
                0
            } else {
                err
            }
        },
    }
}

/// The number of bytes of pixel data that `glTexImage2D` and
/// `glTexSubImage2D` read from the guest for a `width` by `height` image.
pub fn pixel_data_size(width: i32, height: i32, format: u32, type_: u32) -> (r: u32)
    requires
        bytes_per_pixel(format, type_) is Some,
        0 <= width * height <= i32::MAX,
        width * height * bytes_per_pixel(format, type_)->0 <= u32::MAX,
    ensures
        r == width * height * bytes_per_pixel(format, type_)->0,
{
    let pixel_count = width * height;
    image_size_estimate(pixel_count as u32, format, type_)
}

/// The rectangle that `glScissor` and `glViewport` hand on: each value
/// multiplied by the scale factor (taken as a signed 32-bit number).
pub fn scaled_rect(x: i32, y: i32, width: i32, height: i32, scale_hack: u32) -> (r: (i32, i32, i32, i32))
    requires
        i32::MIN <= x * (scale_hack as i32) <= i32::MAX,
        i32::MIN <= y * (scale_hack as i32) <= i32::MAX,
        i32::MIN <= width * (scale_hack as i32) <= i32::MAX,
        i32::MIN <= height * (scale_hack as i32) <= i32::MAX,
    ensures
        r == ((x * (scale_hack as i32)) as i32, (y * (scale_hack as i32)) as i32, (width * (scale_hack as i32)) as i32, (
        height * (scale_hack as i32)) as i32),
{
    #[verifier::truncate]
    let factor = (scale_hack as i32);
    (x * factor, y * factor, width * factor, height * factor)
}

} // verus!
