use ui_compiler::abi::{
    abi_buffer__drop, abi_buffer__len, abi_buffer__new, abi_buffer__ptr, abi_result__drop, abi_result__is_err,
    abi_result__is_ok, abi_result__message, abi_result__new, runtime_loader, Abi, AbiBuffer, AbiFunction, AbiResult,
    Layout,
};

#[test]
fn results_start_ok() {
    let r = AbiResult::new();
    assert!(r.is_ok());
    assert!(!r.is_err());
    assert_eq!(r.message(), "");
}

#[test]
fn a_failed_result_keeps_its_message() {
    let mut r = AbiResult::new();
    r.err("out of range".to_owned());
    assert!(r.is_err());
    assert!(!r.is_ok());
    assert_eq!(r.message(), "out of range");
    r.ok();
    assert!(r.is_ok());
    assert_eq!(r.message(), "");
}

#[test]
fn results_behind_handles() {
    let mut h = abi_result__new();
    assert!(abi_result__is_ok(&h));
    h.into_runtime_temporary().err("bad value".to_owned());
    assert!(abi_result__is_err(&h));
    let msg = abi_result__message(&h);
    assert_eq!(abi_buffer__len(&msg), 9);
    assert_eq!(msg.runtime().to_string(), "bad value");
    abi_buffer__drop(msg);
    abi_result__drop(h);
}

#[test]
fn new_buffers_are_zeroed() {
    let mut b = abi_buffer__new(4);
    assert_eq!(abi_buffer__len(&b), 4);
    assert_eq!(*abi_buffer__ptr(&mut b), vec![0u8; 4]);
    abi_buffer__ptr(&mut b)[1] = b'h';
    abi_buffer__ptr(&mut b)[2] = b'i';
    assert_eq!(b.runtime().len(), 4);
    let inner = b.into_runtime();
    assert_eq!(inner.len(), 4);
}

#[test]
fn text_survives_a_buffer() {
    let b = AbiBuffer::from_string("héllo".to_owned());
    assert_eq!(b.len(), 6);
    assert_eq!(b.to_string(), "héllo");
    let empty = AbiBuffer::new(0);
    assert_eq!(empty.len(), 0);
    assert_eq!(empty.to_string(), "");
}

#[test]
fn handles_give_back_their_value() {
    let h = Abi::into_abi(41u32);
    assert_eq!(*h.runtime(), 41);
    assert_eq!(*h.into_runtime(), 41);
}

#[test]
fn null_functions() {
    assert!(AbiFunction::new(0).is_null());
    assert!(!AbiFunction::new(8).is_null());
    assert_eq!(AbiFunction::new(8).address(), 8);
}

#[test]
fn layouts_have_codes() {
    assert!(Layout::default() == Layout::Row);
    assert_eq!(Layout::Row.code(), 0);
    assert_eq!(Layout::Column.code(), 1);
}

#[test]
fn the_loader_embeds_the_runtime() {
    let text = runtime_loader(&vec![0u8, 1, 2]);
    assert_eq!(
        text,
        "const wasmEncoded = \"data:application/wasm;base64,AAEC\";\n\t\texport const loadRuntime = imports => WebAssembly.instantiateStreaming(fetch(wasmEncoded), imports);\n"
    );
}
