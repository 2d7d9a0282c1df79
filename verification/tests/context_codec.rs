use kuna_sleigh::ctxcodec::{decode_tracked, CtxAttribute, CtxDecodeError, CtxElement, CtxEvent};
use kuna_sleigh::globalcontext::{ContextAddr, ContextInternal, TrackedContext, VarnodeLoc};
use kuna_sleigh::space::{AddrSpace, SpaceType};

/// Spaces: "ram" (1), "ram2" (2), a little-endian "reg" (3), all with
/// 4-byte addresses.
fn space(nm: &str) -> AddrSpace {
    match nm {
        "ram" => AddrSpace::new(1, SpaceType::Processor, false, 4, 1),
        "ram2" => AddrSpace::new(2, SpaceType::Processor, false, 4, 1),
        "reg" => AddrSpace::new(3, SpaceType::Processor, false, 4, 1),
        _ => panic!("no such space"),
    }
}

fn addr(nm: &str, off: u64) -> ContextAddr {
    ContextAddr { space: space(nm), offset: off }
}

fn test_db() -> ContextInternal {
    let mut db = ContextInternal::new();
    db.register_variable(b"fldA", 0, 7).unwrap();
    db.register_variable(b"fldB", 8, 15).unwrap();
    db.register_variable(b"flag", 16, 16).unwrap();
    db.register_variable(b"wide", 32, 63).unwrap();
    db
}

fn get(db: &ContextInternal, nm: &[u8], off: u64) -> u32 {
    db.get_variable_value(nm, addr("ram", off)).unwrap()
}

fn open(el: CtxElement) -> CtxEvent {
    CtxEvent::Open(el)
}

fn close(el: CtxElement) -> CtxEvent {
    CtxEvent::Close(el)
}

fn num(a: CtxAttribute, v: u64) -> CtxEvent {
    CtxEvent::Unsigned(a, v)
}

fn spc(nm: &str) -> CtxEvent {
    CtxEvent::Space(CtxAttribute::Space, space(nm))
}

fn name(nm: &str) -> CtxEvent {
    CtxEvent::Text(CtxAttribute::Name, nm.as_bytes().to_vec())
}

fn value_set(nm: &str, val: u64) -> Vec<CtxEvent> {
    vec![open(CtxElement::Value), name(nm), num(CtxAttribute::Val, val), close(CtxElement::Value)]
}

#[test]
fn test_globalcontext_trackedcontext_roundtrip() {
    let tcont = TrackedContext { loc: VarnodeLoc { space: space("reg"), offset: 0x8, size: 4 }, val: 0x1234_5678 };
    let mut stream: Vec<CtxEvent> = Vec::new();
    tcont.encode(&mut stream);
    let (back, end) = TrackedContext::decode(&stream, 0).unwrap();
    assert_eq!(back, tcont);
    assert_eq!(end, stream.len());
}

#[test]
fn tracked_decoding_errors() {
    // no space
    let ev = vec![open(CtxElement::Value), num(CtxAttribute::Offset, 0), num(CtxAttribute::Val, 1), close(CtxElement::Value)];
    assert_eq!(TrackedContext::decode(&ev, 0), Err(CtxDecodeError::MissingAttribute));
    // no close
    let ev = vec![open(CtxElement::Value), spc("reg"), num(CtxAttribute::Offset, 0), num(CtxAttribute::Size, 4), num(CtxAttribute::Val, 1)];
    assert_eq!(TrackedContext::decode(&ev, 0), Err(CtxDecodeError::MissingClose));
    // another element where a register is expected
    let ev = vec![open(CtxElement::ContextSet), close(CtxElement::ContextSet)];
    assert_eq!(TrackedContext::decode(&ev, 0), Err(CtxDecodeError::UnexpectedElement));
    assert_eq!(decode_tracked(&ev, 0).unwrap_err(), CtxDecodeError::UnexpectedElement);
    assert_eq!(TrackedContext::decode(&ev, 5), Err(CtxDecodeError::UnexpectedEnd));
}

#[test]
fn tracked_list_reads_up_to_the_close() {
    let a = TrackedContext { loc: VarnodeLoc { space: space("reg"), offset: 0, size: 4 }, val: 7 };
    let b = TrackedContext { loc: VarnodeLoc { space: space("reg"), offset: 4, size: 2 }, val: 9 };
    let mut stream = vec![open(CtxElement::TrackedSet)];
    a.encode(&mut stream);
    b.encode(&mut stream);
    stream.push(close(CtxElement::TrackedSet));
    let (ts, end) = decode_tracked(&stream, 1).unwrap();
    assert_eq!(ts, vec![a, b]);
    assert_eq!(end, stream.len() - 1);
}

/// Full database round trip <context_points>.
#[test]
fn test_globalcontext_database_roundtrip() {
    let mut db = test_db();
    // nothing recorded -> nothing encoded
    assert!(db.encode().is_empty());

    db.set_variable(b"fldA", addr("ram", 0x100), 5).unwrap();
    db.set_variable(b"fldB", addr("ram", 0x200), 7).unwrap();
    db.set_variable(b"wide", addr("ram", 0x100), 0xcafe).unwrap();
    {
        let tset = db.create_set(addr("ram", 0x300), addr("ram", 0x400));
        tset.push(TrackedContext { loc: VarnodeLoc { space: space("reg"), offset: 0, size: 4 }, val: 0x99 });
    }

    let stream = db.encode();
    // decode into a freshly-registered database
    let mut back = test_db();
    let end = back.decode(&stream, 0).unwrap();
    assert_eq!(end, stream.len());
    assert_eq!(get(&back, b"fldA", 0xff), 0);
    assert_eq!(get(&back, b"fldA", 0x100), 5);
    assert_eq!(get(&back, b"fldA", 0x250), 5);
    assert_eq!(get(&back, b"fldB", 0x1ff), 0);
    assert_eq!(get(&back, b"fldB", 0x200), 7);
    assert_eq!(get(&back, b"wide", 0x100), 0xcafe);
    let mem = VarnodeLoc { space: space("reg"), offset: 0, size: 4 };
    assert_eq!(back.get_tracked_value(mem, addr("ram", 0x350)), 0x99);
    assert_eq!(back.get_tracked_value(mem, addr("ram", 0x2ff)), 0);
}

/// decode_from_spec: the <context_data> element from a processor spec.
#[test]
fn test_globalcontext_decode_from_spec() {
    let mut db = test_db();
    let mut ev = vec![open(CtxElement::ContextData)];
    ev.extend(vec![open(CtxElement::ContextSet), spc("ram"), num(CtxAttribute::First, 0x100), num(CtxAttribute::Last, 0x1ff)]);
    ev.extend(value_set("fldA", 3));
    ev.extend(value_set("flag", 1));
    ev.push(close(CtxElement::ContextSet));
    ev.extend(vec![open(CtxElement::TrackedSet), spc("ram"), num(CtxAttribute::First, 0x100), num(CtxAttribute::Last, 0x1ff)]);
    ev.extend(vec![
        open(CtxElement::Value),
        spc("reg"),
        num(CtxAttribute::Offset, 0),
        num(CtxAttribute::Size, 4),
        num(CtxAttribute::Val, 0x55),
        close(CtxElement::Value),
    ]);
    ev.push(close(CtxElement::TrackedSet));
    ev.push(close(CtxElement::ContextData));
    assert_eq!(db.decode_from_spec(&ev, 0), Ok(ev.len()));
    assert_eq!(get(&db, b"fldA", 0x100), 3);
    assert_eq!(get(&db, b"fldA", 0x1ff), 3);
    assert_eq!(get(&db, b"fldA", 0x200), 0);
    assert_eq!(get(&db, b"fldA", 0xff), 0);
    assert_eq!(get(&db, b"flag", 0x180), 1);
    let mem = VarnodeLoc { space: space("reg"), offset: 0, size: 4 };
    assert_eq!(db.get_tracked_value(mem, addr("ram", 0x150)), 0x55);
    assert_eq!(db.get_tracked_value(mem, addr("ram", 0x250)), 0);

    // an unexpected child is a hard error
    let mut db2 = test_db();
    let ev = vec![
        open(CtxElement::ContextData),
        open(CtxElement::ContextPointset),
        spc("ram"),
        num(CtxAttribute::First, 0),
        num(CtxAttribute::Last, 1),
        close(CtxElement::ContextPointset),
        close(CtxElement::ContextData),
    ];
    let err = db2.decode_from_spec(&ev, 0).unwrap_err();
    assert_eq!(err.explain(), "Bad <context_data> tag");
}

/// The attribute-less <context_pointset> form restores the default blob
/// (zeroing it per <set> child).
#[test]
fn test_globalcontext_decode_default_pointset() {
    let mut db = test_db();
    db.set_variable_default(b"fldB", 0x11).unwrap();
    let mut ev = vec![open(CtxElement::ContextPoints), open(CtxElement::ContextPointset)];
    ev.extend(value_set("fldA", 2));
    ev.push(close(CtxElement::ContextPointset));
    ev.push(close(CtxElement::ContextPoints));
    db.decode(&ev, 0).unwrap();
    // default blob was zeroed wholesale, then fldA painted
    assert_eq!(db.get_default_value_by_name(b"fldA").unwrap(), 2);
    assert_eq!(db.get_default_value_by_name(b"fldB").unwrap(), 0);
    assert_eq!(get(&db, b"fldA", 0x1234), 2);
}

#[test]
fn decoding_errors_of_the_database() {
    let mut db = test_db();
    // an unknown variable
    let mut ev = vec![open(CtxElement::ContextPoints), open(CtxElement::ContextPointset), spc("ram"), num(CtxAttribute::Offset, 0)];
    ev.extend(value_set("nope", 2));
    ev.push(close(CtxElement::ContextPointset));
    ev.push(close(CtxElement::ContextPoints));
    assert_eq!(db.decode(&ev, 0), Err(CtxDecodeError::NoSuchVariable));
    // an unknown child
    let ev = vec![open(CtxElement::ContextPoints), open(CtxElement::ContextSet), close(CtxElement::ContextSet), close(CtxElement::ContextPoints)];
    assert_eq!(db.decode(&ev, 0), Err(CtxDecodeError::BadPointsTag));
    assert_eq!(CtxDecodeError::BadPointsTag.explain(), "Bad <context_points> tag");
    // a point without its offset
    let ev = vec![open(CtxElement::ContextPoints), open(CtxElement::TrackedPointset), spc("ram"), close(CtxElement::TrackedPointset)];
    assert_eq!(db.decode(&ev, 0), Err(CtxDecodeError::MissingAttribute));
    // the stream ends inside
    let ev = vec![open(CtxElement::ContextPoints)];
    assert_eq!(db.decode(&ev, 0), Err(CtxDecodeError::UnexpectedEnd));
    // a range in the wrong order, and one without a space
    let ev = vec![
        open(CtxElement::ContextData),
        open(CtxElement::ContextSet),
        spc("ram"),
        num(CtxAttribute::First, 5),
        num(CtxAttribute::Last, 4),
        close(CtxElement::ContextSet),
        close(CtxElement::ContextData),
    ];
    assert_eq!(db.decode_from_spec(&ev, 0), Err(CtxDecodeError::IllegalRange));
    let ev = vec![open(CtxElement::ContextData), open(CtxElement::ContextSet), close(CtxElement::ContextSet), close(CtxElement::ContextData)];
    assert_eq!(db.decode_from_spec(&ev, 0), Err(CtxDecodeError::NoRangeSpace));
}

#[test]
fn a_range_to_the_end_of_its_space_stops_there() {
    let mut db = test_db();
    let mut ev = vec![open(CtxElement::ContextData), open(CtxElement::ContextSet), spc("ram"), num(CtxAttribute::First, 0x100)];
    ev.extend(value_set("fldA", 4));
    ev.push(close(CtxElement::ContextSet));
    ev.push(close(CtxElement::ContextData));
    db.decode_from_spec(&ev, 0).unwrap();
    assert_eq!(get(&db, b"fldA", 0xffff_ffff), 4);
    assert_eq!(db.get_variable_value(b"fldA", addr("ram2", 0)).unwrap(), 0);
}
