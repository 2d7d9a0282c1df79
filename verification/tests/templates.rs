use kuna_sleigh::context::{FixedHandle, Token, WalkerAddr, WalkerView};
use kuna_sleigh::opcode::OpCode;
use kuna_sleigh::semantics::{
    build_op, delay_slot_op, label_build_op, ConstTpl, ConstType, ConstructTpl, FixError, HandleTpl, OpTpl,
    VField, VarnodeTpl,
};
use kuna_sleigh::space::{AddrSpace, SpaceType};

// -- fixtures ----------------------------------------------------------------

fn cspace() -> AddrSpace {
    AddrSpace::new(0, SpaceType::Constant, false, 8, 1)
}

/// A little-endian processor space with 4-byte addresses and 2-byte words.
fn ram() -> AddrSpace {
    AddrSpace::new(1, SpaceType::Processor, false, 4, 2)
}

fn uniq() -> AddrSpace {
    AddrSpace::new(2, SpaceType::Internal, false, 4, 1)
}

fn walker() -> WalkerView {
    WalkerView {
        addr: WalkerAddr { space: ram(), offset: 0x1000 },
        naddr: WalkerAddr { space: ram(), offset: 0x1004 },
        n2addr: None,
        ref_addr: None,
        dest_addr: None,
        cur_space: ram(),
        const_space: cspace(),
        handles: Vec::new(),
    }
}

/// Static handle: ram:0x80, size 4.
fn static_handle() -> FixedHandle {
    FixedHandle {
        space: Some(ram()),
        size: 4,
        offset_space: None,
        offset_offset: 0x80,
        offset_size: 0,
        temp_space: None,
        temp_offset: 0,
    }
}

/// Dynamic handle: value lives at unique:0x300, pointer in ram.
fn dynamic_handle() -> FixedHandle {
    FixedHandle {
        space: Some(ram()),
        size: 4,
        offset_space: Some(ram()),
        offset_offset: 0x40,
        offset_size: 4,
        temp_space: Some(uniq()),
        temp_offset: 0x300,
    }
}

/// Constant handle: a const-space value.
fn const_handle() -> FixedHandle {
    FixedHandle {
        space: Some(cspace()),
        size: 8,
        offset_space: None,
        offset_offset: 0xdead_beef_1234_5678,
        offset_size: 0,
        temp_space: None,
        temp_offset: 0,
    }
}

fn index_of(s: AddrSpace) -> u64 {
    u64::try_from(s.get_index()).unwrap()
}

fn same(a: Option<AddrSpace>, b: AddrSpace) -> bool {
    a.map(|x| x.get_index()) == Some(b.get_index())
}

// -- context -----------------------------------------------------------------

#[test]
fn test_context_token_accessors() {
    let tok = Token::new(b"instr", 4, true, 2);
    assert_eq!(tok.get_name(), b"instr");
    assert_eq!(tok.get_size(), 4);
    assert!(tok.is_big_endian());
    assert_eq!(tok.get_index(), 2);
    let tok2 = Token::new(b"tok16", 2, false, 0);
    assert!(!tok2.is_big_endian());
    assert_eq!(tok2.get_size(), 2);
}

#[test]
fn test_context_fixedhandle_default() {
    let hand = FixedHandle::default();
    assert!(hand.space.is_none());
    assert!(hand.offset_space.is_none());
    assert!(hand.temp_space.is_none());
    assert_eq!(hand.size, 0);
    assert_eq!(hand.offset_offset, 0);
    assert_eq!(hand.offset_size, 0);
    assert_eq!(hand.temp_offset, 0);
}

// -- ConstTpl::fix -----------------------------------------------------------

#[test]
fn semantics_consttpl_fix_addresses_and_spaces() {
    let mut w = walker();
    w.ref_addr = Some(WalkerAddr { space: ram(), offset: 0x2000 });
    w.dest_addr = Some(WalkerAddr { space: ram(), offset: 0x3000 });

    assert_eq!(ConstTpl::new_real(ConstType::Real, 0x55).fix(&w).unwrap(), 0x55);
    assert_eq!(ConstTpl::new_real(ConstType::JRelative, 7).fix(&w).unwrap(), 7);
    assert_eq!(ConstTpl::new_type(ConstType::JStart).fix(&w).unwrap(), 0x1000);
    assert_eq!(ConstTpl::new_type(ConstType::JNext).fix(&w).unwrap(), 0x1004);
    // the address after next is unknown here
    assert!(ConstTpl::new_type(ConstType::JNext2).fix(&w).is_err());
    assert_eq!(ConstTpl::new_type(ConstType::JFlowref).fix(&w).unwrap(), 0x2000);
    assert_eq!(ConstTpl::new_type(ConstType::JFlowrefSize).fix(&w).unwrap(), 4);
    assert_eq!(ConstTpl::new_type(ConstType::JFlowdest).fix(&w).unwrap(), 0x3000);
    assert_eq!(ConstTpl::new_type(ConstType::JFlowdestSize).fix(&w).unwrap(), 4);
    assert_eq!(ConstTpl::new_type(ConstType::JCurspaceSize).fix(&w).unwrap(), 4);
    // spaces resolve to their index
    assert_eq!(ConstTpl::new_type(ConstType::JCurspace).fix(&w).unwrap(), index_of(ram()));
    assert_eq!(ConstTpl::new_space(uniq()).fix(&w).unwrap(), index_of(uniq()));
}

#[test]
fn semantics_consttpl_fix_handle_static_and_dynamic() {
    let mut w = walker();
    w.handles.push(static_handle());
    w.handles.push(dynamic_handle());

    assert_eq!(ConstTpl::new_handle(0, VField::VSpace).fix(&w).unwrap(), index_of(ram()));
    assert_eq!(ConstTpl::new_handle(0, VField::VOffset).fix(&w).unwrap(), 0x80);
    assert_eq!(ConstTpl::new_handle(0, VField::VSize).fix(&w).unwrap(), 4);
    // a dynamic handle reads the temporary storage
    assert_eq!(ConstTpl::new_handle(1, VField::VSpace).fix(&w).unwrap(), index_of(uniq()));
    assert_eq!(ConstTpl::new_handle(1, VField::VOffset).fix(&w).unwrap(), 0x300);
    // a handle the decoder does not have
    assert_eq!(ConstTpl::new_handle(5, VField::VOffset).fix(&w), Err(FixError::Unavailable));
}

#[test]
fn semantics_consttpl_fix_offset_plus() {
    let mut w = walker();
    w.handles.push(static_handle());
    w.handles.push(dynamic_handle());
    w.handles.push(const_handle());

    // non-constant static: offset adjusted by the low-16 truncation amount
    assert_eq!(ConstTpl::new_handle_plus(0, VField::VOffsetPlus, 0x0003_0002).fix(&w).unwrap(), 0x80 + 2);
    // non-constant dynamic: temp offset adjusted
    assert_eq!(ConstTpl::new_handle_plus(1, VField::VOffsetPlus, 0x0003_0002).fix(&w).unwrap(), 0x300 + 2);
    // constant: value shifted down by 8*(plus>>16) bits
    assert_eq!(
        ConstTpl::new_handle_plus(2, VField::VOffsetPlus, 0x0004_0004).fix(&w).unwrap(),
        0xdead_beef_1234_5678u64 >> 32
    );
}

#[test]
fn semantics_consttpl_fixspace_matrix() {
    let mut w = walker();
    w.ref_addr = Some(WalkerAddr { space: ram(), offset: 0x2000 });
    w.handles.push(static_handle());
    w.handles.push(dynamic_handle());

    let cur = ConstTpl::new_type(ConstType::JCurspace).fix_space(&w).unwrap();
    assert!(same(cur, ram()));
    let sid = ConstTpl::new_space(uniq()).fix_space(&w).unwrap();
    assert!(same(sid, uniq()));
    let h0 = ConstTpl::new_handle(0, VField::VSpace).fix_space(&w).unwrap();
    assert!(same(h0, ram()));
    let h1 = ConstTpl::new_handle(1, VField::VSpace).fix_space(&w).unwrap();
    assert!(same(h1, uniq()));
    let fr = ConstTpl::new_type(ConstType::JFlowref).fix_space(&w).unwrap();
    assert!(same(fr, ram()));
    // not a space
    let err = ConstTpl::new_real(ConstType::Real, 4).fix_space(&w).unwrap_err();
    assert_eq!(err.explain(), "ConstTpl is not a spaceid as expected");
    // a handle with a non-space select is no space either
    assert!(ConstTpl::new_handle(0, VField::VOffset).fix_space(&w).is_err());
}

#[test]
fn fillin_space_and_offset_from_templates() {
    let mut w = walker();
    w.handles.push(dynamic_handle());
    let mut hand = FixedHandle::default();
    ConstTpl::new_space(ram()).fillin_space(&mut hand, &w).unwrap();
    assert!(same(hand.space, ram()));
    // an offset past the top of ram (4-byte addresses, 2-byte words) wraps
    ConstTpl::new_real(ConstType::Real, 0x2_0000_0005).fillin_offset(&mut hand, &w).unwrap();
    assert!(hand.offset_space.is_none());
    assert_eq!(hand.offset_offset, 0x5);
    // a handle's dynamic parts are copied
    ConstTpl::new_handle(0, VField::VOffset).fillin_offset(&mut hand, &w).unwrap();
    assert!(same(hand.offset_space, ram()));
    assert_eq!(hand.offset_offset, 0x40);
    assert_eq!(hand.temp_offset, 0x300);
    // a failed fill leaves the space alone
    let before = hand;
    assert!(ConstTpl::new_type(ConstType::JStart).fillin_space(&mut hand, &w).is_err());
    assert_eq!(hand, before);
}

#[test]
fn wrap_offset_reduces_into_the_space() {
    let r = ram();
    assert_eq!(r.get_highest(), 0x1_ffff_ffff);
    assert_eq!(r.wrap_offset(0x1_ffff_ffff), 0x1_ffff_ffff);
    assert_eq!(r.wrap_offset(0x2_0000_0000), 0);
    assert_eq!(r.wrap_offset(0x4_0000_0003), 3);
    // offsets above 2^63 are read as negative numbers
    let odd = AddrSpace::new(3, SpaceType::Processor, false, 1, 3);
    assert_eq!(odd.get_highest(), 0x2ff);
    assert_eq!(odd.wrap_offset(u64::MAX), 0x2ff);
    assert_eq!(odd.wrap_offset(0x300), 0);
}

// -- HandleTpl::fix ----------------------------------------------------------

#[test]
fn semantics_handletpl_fix_unstarred() {
    let w = walker();
    let vn = VarnodeTpl::new(
        ConstTpl::new_space(ram()),
        ConstTpl::new_real(ConstType::Real, 0x42),
        ConstTpl::new_real(ConstType::Real, 4),
    );
    let tpl = HandleTpl::new_from_varnode(&vn);
    let mut hand = FixedHandle::default();
    tpl.fix(&mut hand, &w).unwrap();
    assert!(same(hand.space, ram()));
    assert_eq!(hand.size, 4);
    assert!(hand.offset_space.is_none());
    assert_eq!(hand.offset_offset, 0x42);
}

#[test]
fn semantics_handletpl_fix_starred_constant_pointer() {
    let w = walker();
    // a star through a constant pointer folds into a static offset,
    // converting address units to bytes (word size 2)
    let ptr_vn = VarnodeTpl::new(
        ConstTpl::new_space(cspace()),
        ConstTpl::new_real(ConstType::Real, 0x21),
        ConstTpl::new_real(ConstType::Real, 4),
    );
    let tpl = HandleTpl::new_ptr(
        &ConstTpl::new_space(ram()),
        &ConstTpl::new_real(ConstType::Real, 4),
        &ptr_vn,
        uniq(),
        0x100,
    );
    let mut hand = FixedHandle::default();
    tpl.fix(&mut hand, &w).unwrap();
    assert!(same(hand.space, ram()));
    assert_eq!(hand.size, 4);
    assert!(hand.offset_space.is_none());
    assert_eq!(hand.offset_offset, 0x42);
}

#[test]
fn semantics_handletpl_fix_starred_dynamic_pointer() {
    let mut w = walker();
    w.handles.push(static_handle());
    let ptr_vn = VarnodeTpl::new_from_handle(0, false);
    let tpl = HandleTpl::new_ptr(
        &ConstTpl::new_space(ram()),
        &ConstTpl::new_real(ConstType::Real, 4),
        &ptr_vn,
        uniq(),
        0x100,
    );
    let mut hand = FixedHandle::default();
    tpl.fix(&mut hand, &w).unwrap();
    assert!(same(hand.space, ram()));
    assert_eq!(hand.size, 4);
    assert!(same(hand.offset_space, ram()));
    assert_eq!(hand.offset_offset, 0x80);
    assert_eq!(hand.offset_size, 4);
    assert!(same(hand.temp_space, uniq()));
    assert_eq!(hand.temp_offset, 0x100);
}

#[test]
fn varnodetpl_is_dynamic_follows_the_handle() {
    let mut w = walker();
    w.handles.push(static_handle());
    w.handles.push(dynamic_handle());
    assert_eq!(VarnodeTpl::new_from_handle(0, false).is_dynamic(&w), Ok(false));
    assert_eq!(VarnodeTpl::new_from_handle(1, false).is_dynamic(&w), Ok(true));
    assert_eq!(VarnodeTpl::new_from_handle(2, false).is_dynamic(&w), Err(FixError::Unavailable));
    let plain = VarnodeTpl::new(
        ConstTpl::new_space(ram()),
        ConstTpl::new_real(ConstType::Real, 0x42),
        ConstTpl::new_real(ConstType::Real, 4),
    );
    assert_eq!(plain.is_dynamic(&w), Ok(false));
}

// -- equality / ordering -----------------------------------------------------

#[test]
fn semantics_consttpl_equality_and_order() {
    let r5 = ConstTpl::new_real(ConstType::Real, 5);
    let r9 = ConstTpl::new_real(ConstType::Real, 9);
    assert!(r5.equals(&ConstTpl::new_real(ConstType::Real, 5)));
    assert!(!r5.equals(&r9));
    assert!(r5.less_than(&r9));
    assert!(!r9.less_than(&r5));
    // type order dominates
    assert!(r9.less_than(&ConstTpl::new_handle(0, VField::VSpace)));
    // handle order: index then select
    let h0s = ConstTpl::new_handle(0, VField::VSpace);
    let h0o = ConstTpl::new_handle(0, VField::VOffset);
    let h1s = ConstTpl::new_handle(1, VField::VSpace);
    assert!(h0s.less_than(&h0o));
    assert!(h0o.less_than(&h1s));
    assert!(!h0s.equals(&h0o));
    // spaces compare by identity
    let s1 = ConstTpl::new_space(ram());
    let s2 = ConstTpl::new_space(ram());
    assert!(s1.equals(&s2));
    assert!(!s1.less_than(&s2));
    assert!(!s1.equals(&ConstTpl::new_space(uniq())));
    // address placeholders compare equal beyond the type
    assert!(ConstTpl::new_type(ConstType::JStart).equals(&ConstTpl::new_type(ConstType::JStart)));
    assert!(ConstTpl::new_real(ConstType::Real, 0).is_zero());
    assert!(!ConstTpl::new_real(ConstType::JRelative, 0).is_zero());
}

// -- transfer ----------------------------------------------------------------

#[test]
fn semantics_consttpl_transfer_through_handles() {
    let vn = VarnodeTpl::new(
        ConstTpl::new_space(ram()),
        ConstTpl::new_real(ConstType::Real, 0x42),
        ConstTpl::new_real(ConstType::Real, 4),
    );
    let params = vec![HandleTpl::new_from_varnode(&vn)];

    let mut space = ConstTpl::new_handle(0, VField::VSpace);
    space.transfer(&params).unwrap();
    assert_eq!(space.get_type(), ConstType::Spaceid);
    assert_eq!(space.get_space().get_index(), ram().get_index());

    let mut off = ConstTpl::new_handle(0, VField::VOffset);
    off.transfer(&params).unwrap();
    assert_eq!(off.get_type(), ConstType::Real);
    assert_eq!(off.get_real(), 0x42);

    let mut size = ConstTpl::new_handle(0, VField::VSize);
    size.transfer(&params).unwrap();
    assert_eq!(size.get_real(), 4);

    // a truncation onto a real offset adds the truncation amount
    let mut plus = ConstTpl::new_handle_plus(0, VField::VOffsetPlus, 0x0001_0002);
    plus.transfer(&params).unwrap();
    assert_eq!(plus.get_type(), ConstType::Real);
    assert_eq!(plus.get_real(), 0x42 + 2);

    // a truncation onto a handle offset moves the truncation along
    let hvn = VarnodeTpl::new_from_handle(3, false);
    let hparams = vec![HandleTpl::new_from_varnode(&hvn)];
    let mut plus2 = ConstTpl::new_handle_plus(0, VField::VOffsetPlus, 0x0001_0002);
    plus2.transfer(&hparams).unwrap();
    assert_eq!(plus2.get_type(), ConstType::Handle);
    assert_eq!(plus2.get_handle_index(), 3);
    assert_eq!(plus2.get_select(), VField::VOffsetPlus);
    assert_eq!(plus2.get_real(), 0x0001_0002);

    // a truncation onto anything else is refused
    let jvn = VarnodeTpl::new(
        ConstTpl::new_space(ram()),
        ConstTpl::new_type(ConstType::JStart),
        ConstTpl::new_real(ConstType::Real, 4),
    );
    let jparams = vec![HandleTpl::new_from_varnode(&jvn)];
    let mut plus3 = ConstTpl::new_handle_plus(0, VField::VOffsetPlus, 2);
    let err = plus3.transfer(&jparams).unwrap_err();
    assert_eq!(err.explain(), "Cannot truncate macro input in this way");
}

#[test]
fn semantics_varnodetpl_transfer_truncation_returns() {
    let mut vn = VarnodeTpl::new(
        ConstTpl::new_space(uniq()),
        ConstTpl::new_handle_plus(0, VField::VOffsetPlus, 0x0000_0002),
        ConstTpl::new_real(ConstType::Real, 2),
    );
    let exp = VarnodeTpl::new(
        ConstTpl::new_space(uniq()),
        ConstTpl::new_real(ConstType::Real, 0x10),
        ConstTpl::new_real(ConstType::Real, 4),
    );
    let params = vec![HandleTpl::new_from_varnode(&exp)];
    assert_eq!(vn.transfer(&params).unwrap(), 2);

    let mut plain = VarnodeTpl::new(
        ConstTpl::new_space(ram()),
        ConstTpl::new_real(ConstType::Real, 0x42),
        ConstTpl::new_real(ConstType::Real, 4),
    );
    assert_eq!(plain.transfer(&params).unwrap(), -1);
}

#[test]
fn semantics_varnodetpl_adjust_truncation() {
    // little endian: encoded as (byteoffset<<16) | byteoffset
    let mut vn = VarnodeTpl::new(
        ConstTpl::new_real(ConstType::Real, 0),
        ConstTpl::new_handle_plus(2, VField::VOffsetPlus, 2),
        ConstTpl::new_real(ConstType::Real, 2),
    );
    assert!(vn.adjust_truncation(8, false));
    assert_eq!(vn.get_offset().get_type(), ConstType::Handle);
    assert_eq!(vn.get_offset().get_handle_index(), 2);
    assert_eq!(vn.get_offset().get_real(), (2u64 << 16) | 2);

    // big endian flips the in-byte offset: size 2 at byteoffset 2 of 8
    let mut vn2 = VarnodeTpl::new(
        ConstTpl::new_real(ConstType::Real, 0),
        ConstTpl::new_handle_plus(2, VField::VOffsetPlus, 2),
        ConstTpl::new_real(ConstType::Real, 2),
    );
    assert!(vn2.adjust_truncation(8, true));
    assert_eq!(vn2.get_offset().get_real(), (2u64 << 16) | 4);

    // out of bounds
    let mut vn3 = VarnodeTpl::new(
        ConstTpl::new_real(ConstType::Real, 0),
        ConstTpl::new_handle_plus(2, VField::VOffsetPlus, 7),
        ConstTpl::new_real(ConstType::Real, 4),
    );
    assert!(!vn3.adjust_truncation(8, false));
}

// -- ConstructTpl bookkeeping ------------------------------------------------

fn copy_op() -> OpTpl {
    let mut op = OpTpl::new(OpCode::CPUI_COPY);
    op.add_input(VarnodeTpl::new(
        ConstTpl::new_space(ram()),
        ConstTpl::new_real(ConstType::Real, 0x42),
        ConstTpl::new_real(ConstType::Real, 4),
    ));
    op.set_output(VarnodeTpl::new(
        ConstTpl::new_space(uniq()),
        ConstTpl::new_real(ConstType::Real, 0x10),
        ConstTpl::new_real(ConstType::Real, 4),
    ));
    op
}

fn make_build_op(index: u64) -> OpTpl {
    let mut op = OpTpl::new(build_op());
    op.add_input(VarnodeTpl::new(
        ConstTpl::new_space(cspace()),
        ConstTpl::new_real(ConstType::Real, index),
        ConstTpl::new_real(ConstType::Real, 4),
    ));
    op
}

#[test]
fn semantics_constructtpl_addop_counts_labels_and_delayslots() {
    let mut ct = ConstructTpl::new();

    let mut label = OpTpl::new(label_build_op());
    label.add_input(VarnodeTpl::new(
        ConstTpl::new_space(cspace()),
        ConstTpl::new_real(ConstType::Real, 0),
        ConstTpl::new_real(ConstType::Real, 4),
    ));
    assert!(ct.add_op(label));
    assert_eq!(ct.num_labels(), 1);

    let mut ds = OpTpl::new(delay_slot_op());
    ds.add_input(VarnodeTpl::new(
        ConstTpl::new_space(cspace()),
        ConstTpl::new_real(ConstType::Real, 1),
        ConstTpl::new_real(ConstType::Real, 4),
    ));
    assert!(ct.add_op(ds));
    assert_eq!(ct.delay_slot(), 1);

    // a second delay slot is refused
    let mut ds2 = OpTpl::new(delay_slot_op());
    ds2.add_input(VarnodeTpl::new(
        ConstTpl::new_space(cspace()),
        ConstTpl::new_real(ConstType::Real, 2),
        ConstTpl::new_real(ConstType::Real, 4),
    ));
    assert!(!ct.add_op(ds2));
}

#[test]
fn semantics_constructtpl_fillin_build_and_buildonly() {
    let mut ct = ConstructTpl::new();
    ct.add_op(make_build_op(1));
    // operands 0 and 2 have no build: builds are put in front for them
    let mut check = vec![0i32; 3];
    assert_eq!(ct.fillin_build(&mut check, cspace()), 0);
    assert_eq!(ct.get_opvec().len(), 3);
    assert!(ct.build_only());
    let offsets: Vec<u64> = ct.get_opvec().iter().map(|op| op.get_in(0).get_offset().get_real()).collect();
    assert_eq!(offsets, vec![2, 0, 1]);

    // a second build of an operand reports the mark already there
    let mut ct2 = ConstructTpl::new();
    ct2.add_op(make_build_op(0));
    ct2.add_op(make_build_op(0));
    let mut check2 = vec![0i32; 1];
    assert_eq!(ct2.fillin_build(&mut check2, cspace()), 1);

    // a build of a non-subtable operand reports its mark
    let mut ct3 = ConstructTpl::new();
    ct3.add_op(make_build_op(0));
    let mut check3 = vec![2i32; 1];
    assert_eq!(ct3.fillin_build(&mut check3, cspace()), 2);

    let mut ct4 = ConstructTpl::new();
    ct4.add_op(copy_op());
    assert!(!ct4.build_only());
}

#[test]
fn semantics_constructtpl_delete_ops_compacts_in_order() {
    let mut ct = ConstructTpl::new();
    for i in 0..5 {
        ct.add_op(make_build_op(i));
    }
    ct.delete_ops(&[1, 3]);
    let offsets: Vec<u64> = ct.get_opvec().iter().map(|op| op.get_in(0).get_offset().get_real()).collect();
    assert_eq!(offsets, vec![0, 2, 4]);
}

#[test]
fn semantics_change_handle_index_remaps_builds_and_handles() {
    let mut ct = ConstructTpl::new();
    ct.add_op(make_build_op(0));
    let mut op = OpTpl::new(OpCode::CPUI_COPY);
    op.add_input(VarnodeTpl::new_from_handle(1, false));
    op.set_output(VarnodeTpl::new_from_handle(0, false));
    ct.add_op(op);
    ct.set_result(Some(HandleTpl::new_from_varnode(&VarnodeTpl::new_from_handle(1, false))));

    let handmap = vec![5, 7];
    ct.change_handle_index(&handmap);
    assert_eq!(ct.get_opvec()[0].get_in(0).get_offset().get_real(), 5);
    assert_eq!(ct.get_opvec()[1].get_in(0).get_offset().get_handle_index(), 7);
    assert_eq!(ct.get_opvec()[1].get_out().unwrap().get_offset().get_handle_index(), 5);
    assert_eq!(ct.get_result().unwrap().get_ptr_offset().get_handle_index(), 7);
}
