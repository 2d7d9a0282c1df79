use kuna_sleigh::marshal::{AttributeId, DecodeError, ElementId, MarshalEvent};
use kuna_sleigh::opcode::OpCode;
use kuna_sleigh::semantics::{
    delay_slot_op, label_build_op, ConstTpl, ConstType, ConstructTpl, HandleTpl, OpTpl, VField,
    VarnodeTpl,
};
use kuna_sleigh::space::{AddrSpace, SpaceType};

fn cspace() -> AddrSpace {
    AddrSpace::new(0, SpaceType::Constant, false, 8, 1)
}

fn ram() -> AddrSpace {
    AddrSpace::new(1, SpaceType::Processor, false, 4, 1)
}

fn uniq() -> AddrSpace {
    AddrSpace::new(2, SpaceType::Internal, false, 4, 1)
}

/// Encode, decode, re-encode and compare the event streams.
fn roundtrip_consttpl(ct: &ConstTpl) -> ConstTpl {
    let mut buf = Vec::new();
    ct.encode(&mut buf);
    let (out, next) = ConstTpl::decode(&buf, 0).unwrap();
    assert_eq!(next, buf.len());
    let mut buf2 = Vec::new();
    out.encode(&mut buf2);
    assert_eq!(buf, buf2);
    out
}

#[test]
fn semantics_consttpl_decode_roundtrip_all_variants() {
    let variants = vec![
        ConstTpl::new_real(ConstType::Real, 0x1234),
        ConstTpl::new_real(ConstType::JRelative, 9),
        ConstTpl::new_handle(2, VField::VOffset),
        ConstTpl::new_handle_plus(1, VField::VOffsetPlus, 0x0002_0001),
        ConstTpl::new_type(ConstType::JStart),
        ConstTpl::new_type(ConstType::JNext),
        ConstTpl::new_type(ConstType::JNext2),
        ConstTpl::new_type(ConstType::JCurspace),
        ConstTpl::new_type(ConstType::JCurspaceSize),
        ConstTpl::new_type(ConstType::JFlowref),
        ConstTpl::new_type(ConstType::JFlowrefSize),
        ConstTpl::new_type(ConstType::JFlowdest),
        ConstTpl::new_type(ConstType::JFlowdestSize),
        ConstTpl::new_space(ram()),
    ];
    for v in &variants {
        let out = roundtrip_consttpl(v);
        assert_eq!(out.get_type(), v.get_type());
        assert!(v.equals(&out));
        match v.get_type() {
            ConstType::Real | ConstType::JRelative => {
                assert_eq!(out.get_real(), v.get_real());
            }
            ConstType::Handle => {
                assert_eq!(out.get_handle_index(), v.get_handle_index());
                assert_eq!(out.get_select(), v.get_select());
                if v.get_select() == VField::VOffsetPlus {
                    assert_eq!(out.get_real(), v.get_real());
                }
            }
            ConstType::Spaceid => {
                assert_eq!(out.get_space(), v.get_space());
            }
            _ => {}
        }
    }
}

#[test]
fn semantics_consttpl_decode_bad_selector() {
    let buf = vec![
        MarshalEvent::Open(ElementId::ConstHandle),
        MarshalEvent::Signed(AttributeId::Val, 0),
        MarshalEvent::Signed(AttributeId::S, 9),
        MarshalEvent::Close(ElementId::ConstHandle),
    ];
    let err = ConstTpl::decode(&buf, 0).unwrap_err();
    assert_eq!(err, DecodeError::BadHandleSelector);
    assert_eq!(err.explain(), "Bad handle selector encoding");
}

fn copy_op() -> OpTpl {
    let mut op = OpTpl::new(OpCode::CPUI_COPY);
    op.add_input(VarnodeTpl::new(
        ConstTpl::new_space(ram()),
        ConstTpl::new_real(ConstType::Real, 0x42),
        ConstTpl::new_real(ConstType::Real, 4),
    ));
    op.set_output(VarnodeTpl::new(
        ConstTpl::new_space(uniq()),
        ConstTpl::new_real(ConstType::Real, 0x10),
        ConstTpl::new_real(ConstType::Real, 4),
    ));
    op
}

#[test]
fn semantics_optpl_and_constructtpl_decode_roundtrip() {
    let mut ct = ConstructTpl::new();
    assert!(ct.add_op(copy_op()));
    let mut noout = OpTpl::new(OpCode::CPUI_STORE);
    noout.add_input(VarnodeTpl::new(
        ConstTpl::new_space(cspace()),
        ConstTpl::new_real(ConstType::Real, 1),
        ConstTpl::new_real(ConstType::Real, 8),
    ));
    noout.add_input(VarnodeTpl::new_from_handle(0, false));
    noout.add_input(VarnodeTpl::new_from_handle(1, true));
    assert!(ct.add_op(noout));
    ct.set_result(Some(HandleTpl::new_from_varnode(&VarnodeTpl::new_from_handle(0, false))));

    let mut buf = Vec::new();
    ct.encode(&mut buf, 3);
    let (out, sectionid, next) = ConstructTpl::decode(&buf, 0).unwrap();
    assert_eq!(next, buf.len());
    assert_eq!(sectionid, 3);
    assert_eq!(out.get_opvec().len(), 2);
    assert_eq!(out.get_opvec()[0].get_opcode(), OpCode::CPUI_COPY);
    assert_eq!(out.get_opvec()[0].num_input(), 1);
    assert!(out.get_opvec()[0].get_out().is_some());
    assert_eq!(out.get_opvec()[1].get_opcode(), OpCode::CPUI_STORE);
    assert_eq!(out.get_opvec()[1].num_input(), 3);
    assert!(out.get_opvec()[1].get_out().is_none());
    assert!(out.get_result().is_some());

    // re-encoding gives the same stream
    let mut buf2 = Vec::new();
    out.encode(&mut buf2, 3);
    assert_eq!(buf, buf2);
}

#[test]
fn semantics_constructtpl_decode_null_result_and_attributes() {
    let mut ct = ConstructTpl::new();
    // a labeled template with a delay slot, no result export
    let mut label = OpTpl::new(label_build_op());
    label.add_input(VarnodeTpl::new(
        ConstTpl::new_space(cspace()),
        ConstTpl::new_real(ConstType::Real, 0),
        ConstTpl::new_real(ConstType::Real, 4),
    ));
    assert!(ct.add_op(label));
    let mut ds = OpTpl::new(delay_slot_op());
    ds.add_input(VarnodeTpl::new(
        ConstTpl::new_space(cspace()),
        ConstTpl::new_real(ConstType::Real, 1),
        ConstTpl::new_real(ConstType::Real, 4),
    ));
    assert!(ct.add_op(ds));

    let mut buf = Vec::new();
    ct.encode(&mut buf, -1);
    let (out, sectionid, _) = ConstructTpl::decode(&buf, 0).unwrap();
    assert_eq!(sectionid, -1);
    assert_eq!(out.delay_slot(), 1);
    assert_eq!(out.num_labels(), 1);
    assert!(out.get_result().is_none());
}

#[test]
fn encoding_of_constants_has_the_expected_shape() {
    let mut buf = Vec::new();
    ConstTpl::new_handle_plus(3, VField::VOffsetPlus, 7).encode(&mut buf);
    assert_eq!(
        buf,
        vec![
            MarshalEvent::Open(ElementId::ConstHandle),
            MarshalEvent::Signed(AttributeId::Val, 3),
            MarshalEvent::Signed(AttributeId::S, 3),
            MarshalEvent::Unsigned(AttributeId::Plus, 7),
            MarshalEvent::Close(ElementId::ConstHandle),
        ]
    );
    // the truncation amount of a field other than offset-plus is not kept
    let mut buf = Vec::new();
    ConstTpl::new_handle_plus(3, VField::VSize, 7).encode(&mut buf);
    let (out, _) = ConstTpl::decode(&buf, 0).unwrap();
    assert_eq!(out.get_real(), 0);
    assert_eq!(out.get_select(), VField::VSize);
}

#[test]
fn decoding_reads_attributes_in_any_order() {
    let buf = vec![
        MarshalEvent::Open(ElementId::ConstHandle),
        MarshalEvent::Unsigned(AttributeId::Plus, 5),
        MarshalEvent::Signed(AttributeId::S, 3),
        MarshalEvent::Signed(AttributeId::Val, 4),
        MarshalEvent::Close(ElementId::ConstHandle),
    ];
    let (out, next) = ConstTpl::decode(&buf, 0).unwrap();
    assert_eq!(next, 5);
    assert_eq!(out.get_handle_index(), 4);
    assert_eq!(out.get_select(), VField::VOffsetPlus);
    assert_eq!(out.get_real(), 5);
}

#[test]
fn decoding_errors() {
    // nothing to decode
    assert_eq!(ConstTpl::decode(&[], 0).unwrap_err(), DecodeError::UnexpectedEnd);
    // a varnode element where a constant was expected
    let buf = vec![MarshalEvent::Open(ElementId::VarnodeTpl), MarshalEvent::Close(ElementId::VarnodeTpl)];
    assert_eq!(ConstTpl::decode(&buf, 0).unwrap_err(), DecodeError::BadConstantType);
    assert_eq!(DecodeError::BadConstantType.explain(), "Bad constant type");
    // a real constant without its value
    let buf = vec![MarshalEvent::Open(ElementId::ConstReal), MarshalEvent::Close(ElementId::ConstReal)];
    assert_eq!(ConstTpl::decode(&buf, 0).unwrap_err(), DecodeError::MissingAttribute);
    // an element that does not close
    let buf = vec![MarshalEvent::Open(ElementId::ConstStart), MarshalEvent::Open(ElementId::ConstNext)];
    assert_eq!(ConstTpl::decode(&buf, 0).unwrap_err(), DecodeError::MissingClose);
    // a closing where an element should open
    let buf = vec![MarshalEvent::Close(ElementId::ConstStart)];
    assert_eq!(ConstTpl::decode(&buf, 0).unwrap_err(), DecodeError::UnexpectedElement);
    // a varnode template needs its three constants
    let buf = vec![
        MarshalEvent::Open(ElementId::VarnodeTpl),
        MarshalEvent::Open(ElementId::ConstStart),
        MarshalEvent::Close(ElementId::ConstStart),
        MarshalEvent::Close(ElementId::VarnodeTpl),
    ];
    assert_eq!(VarnodeTpl::decode(&buf, 0).unwrap_err(), DecodeError::UnexpectedElement);
}

#[test]
fn varnode_and_handle_roundtrip() {
    let vn = VarnodeTpl::new(
        ConstTpl::new_space(ram()),
        ConstTpl::new_real(ConstType::Real, 0x80),
        ConstTpl::new_real(ConstType::Real, 2),
    );
    let mut buf = Vec::new();
    vn.encode(&mut buf);
    assert_eq!(buf.len(), 11);
    let (out, next) = VarnodeTpl::decode(&buf, 0).unwrap();
    assert_eq!(next, 11);
    assert!(out.equals(&vn));

    let h = HandleTpl::new_from_varnode(&vn);
    let mut hbuf = Vec::new();
    h.encode(&mut hbuf);
    let (hout, hnext) = HandleTpl::decode(&hbuf, 0).unwrap();
    assert_eq!(hnext, hbuf.len());
    let mut hbuf2 = Vec::new();
    hout.encode(&mut hbuf2);
    assert_eq!(hbuf, hbuf2);
}
