use bfjit::ir::compile;
use bfjit::jit::emit_code;

#[test]
fn emitted_code_starts_with_prologue_push() {
    let code = compile("+.").unwrap();
    let bytes = emit_code(&code, 0x1000, 0x2000, 0x3000).unwrap();
    // The prologue's first instruction is `push rax`, encoded as 0x50.
    assert_eq!(bytes[0], 0x50);
    // The tail alone needs more than a dozen bytes.
    assert!(bytes.len() > 16);
}

#[test]
fn emitted_code_embeds_callback_addresses() {
    let code = compile(".").unwrap();
    let a = emit_code(&code, 0x1111_2222_3333_4444, 0x5555_6666_7777_8888, 0x9999).unwrap();
    let b = emit_code(&code, 0x1111_2222_3333_4444, 0x0123_4567_89AB_CDEF, 0x9999).unwrap();
    // The put-byte routine's absolute address appears in the code.
    let needle = 0x5555_6666_7777_8888u64.to_le_bytes();
    assert!(a.windows(8).any(|w| w == needle));
    // Changing a callback address changes the emitted bytes.
    assert_ne!(a, b);
}

#[test]
fn emitted_code_grows_with_the_program() {
    let small = emit_code(&compile("+").unwrap(), 1, 2, 3).unwrap();
    let large = emit_code(&compile("+[>+<-].").unwrap(), 1, 2, 3).unwrap();
    assert!(large.len() > small.len());
}
