use kuna_sleigh::emulate::{check_for_legal_code, get_load_image_value, RawOp};
use kuna_sleigh::globalcontext::VarnodeLoc;
use kuna_sleigh::opcode::OpCode;
use kuna_sleigh::space::{AddrSpace, SpaceType};

fn cst(off: u64, size: u32) -> VarnodeLoc {
    VarnodeLoc { space: AddrSpace::new(0, SpaceType::Constant, false, 8, 1), offset: off, size }
}

fn ram_vn(off: u64, size: u32) -> VarnodeLoc {
    VarnodeLoc { space: AddrSpace::new(1, SpaceType::Processor, false, 4, 1), offset: off, size }
}

fn uvn(off: u64, size: u32) -> VarnodeLoc {
    VarnodeLoc { space: AddrSpace::new(2, SpaceType::Internal, false, 4, 1), offset: off, size }
}

#[test]
fn test_emulateutil_snippet_illegal_code() {
    // STORE is illegal
    let store = RawOp { opcode: OpCode::CPUI_STORE, output: None, inputs: vec![cst(1, 8), cst(0x3000, 8), cst(1, 8)] };
    assert!(!check_for_legal_code(&[store]));
    // absolute BRANCH is illegal
    let branch = RawOp { opcode: OpCode::CPUI_BRANCH, output: None, inputs: vec![ram_vn(0x4000, 8)] };
    assert!(!check_for_legal_code(&[branch]));
    // a relative branch is legal
    let rel = RawOp { opcode: OpCode::CPUI_BRANCH, output: None, inputs: vec![cst(100, 8)] };
    assert!(check_for_legal_code(&[rel]));
}

#[test]
fn illegal_code_stops_before_an_unreached_branch() {
    // a branch with no input after an illegal op is never looked at
    let store = RawOp { opcode: OpCode::CPUI_STORE, output: None, inputs: vec![] };
    let branch = RawOp { opcode: OpCode::CPUI_BRANCH, output: None, inputs: vec![] };
    assert!(!check_for_legal_code(&[store, branch]));
    // writing a processor space or reading one is illegal, temporaries are fine
    let copy_out = RawOp { opcode: OpCode::CPUI_COPY, output: Some(ram_vn(0, 4)), inputs: vec![uvn(0, 4)] };
    assert!(!check_for_legal_code(&[copy_out]));
    let copy_in = RawOp { opcode: OpCode::CPUI_COPY, output: Some(uvn(0, 4)), inputs: vec![ram_vn(0, 4)] };
    assert!(!check_for_legal_code(&[copy_in]));
    let ok = RawOp { opcode: OpCode::CPUI_COPY, output: Some(uvn(0, 4)), inputs: vec![cst(3, 4)] };
    assert!(check_for_legal_code(&[ok]));
}

#[test]
fn test_emulateutil_snippet_load_image_value() {
    let bytes = [0x11, 0x22, 0x33, 0x44, 0x55, 0x66, 0x77, 0x88];
    // little endian: mask the low sz bytes
    assert_eq!(get_load_image_value(&bytes, 4, false), 0x44332211);
    // big endian: the value is shifted down from the top of the word
    assert_eq!(get_load_image_value(&bytes, 4, true), 0x11223344);
    assert_eq!(get_load_image_value(&bytes, 8, true), 0x1122334455667788);
}
