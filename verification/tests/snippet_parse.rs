use kuna_sleigh::opcode::OpCode;
use kuna_sleigh::pcodecompile::{UserOpSymbol, VarnodeSymbol};
use kuna_sleigh::pcodeparse::{
    ident_name, parse_number, PcodeLexer, PcodeSnippet, SnippetLanguage, SnippetSymbol, NUM_IDENTS,
};
use kuna_sleigh::semantics::{ConstTpl, ConstType, OpTpl, VarnodeTpl};
use kuna_sleigh::space::{AddrSpace, SpaceType};

// ---------------------------------------------------------------------------
// Fixture: a language with a constant space, a 4-byte big-endian `ram`
// space holding named registers, a unique space and optionally a user-op.
// ---------------------------------------------------------------------------

fn test_lang(regs: &[(&str, u64, i32)], userop: Option<(&str, u32)>) -> SnippetLanguage {
    let cs = AddrSpace::new(0, SpaceType::Constant, false, 8, 1);
    let ram = AddrSpace::new(1, SpaceType::Processor, true, 4, 1);
    let uniq = AddrSpace::new(2, SpaceType::Internal, true, 4, 1);
    let mut lang = SnippetLanguage::new(ram, cs, uniq);
    lang.add_space(b"const", cs);
    lang.add_space(b"ram", ram);
    lang.add_space(b"unique", uniq);
    for (n, off, size) in regs {
        lang.add_symbol(SnippetSymbol::Varnode(VarnodeSymbol {
            name: n.as_bytes().to_vec(),
            space: ram,
            offset: *off,
            size: *size,
        }));
    }
    if let Some((n, idx)) = userop {
        lang.add_symbol(SnippetSymbol::UserOp(UserOpSymbol { name: n.as_bytes().to_vec(), index: idx }));
    }
    lang.add_symbol(SnippetSymbol::Start(b"inst_start".to_vec()));
    lang.add_symbol(SnippetSymbol::End(b"inst_next".to_vec()));
    lang.add_symbol(SnippetSymbol::Next2(b"inst_next2".to_vec()));
    lang
}

const BASIC_REGS: [(&str, u64, i32); 14] = [
    ("r1", 0x10, 4),
    ("r2", 0x14, 4),
    ("ESP", 0x20, 4),
    ("EBP", 0x24, 4),
    ("EAX", 0x28, 4),
    ("SP", 0x40, 4),
    ("R7", 0x44, 4),
    ("LR", 0x48, 4),
    ("FP", 0x4c, 4),
    ("PC", 0x50, 4),
    ("ACC", 0x54, 1),
    ("sp", 0x58, 4),
    ("v0", 0x5c, 4),
    ("r0", 0x60, 4),
];

fn basic_lang() -> SnippetLanguage {
    test_lang(&BASIC_REGS, None)
}

// ---------------------------------------------------------------------------
// Op-sequence rendering (compact, deterministic, for assertions)
// ---------------------------------------------------------------------------

fn space_name(lang: &SnippetLanguage, spc: AddrSpace) -> String {
    for e in lang.spaces.iter() {
        if e.space.get_index() == spc.get_index() {
            return String::from_utf8(e.name.clone()).unwrap();
        }
    }
    panic!("unknown space")
}

fn render_const(lang: &SnippetLanguage, c: &ConstTpl) -> String {
    match c.get_type() {
        ConstType::Real => format!("{:#x}", c.get_real()),
        ConstType::Handle => format!("hand{}.{:?}", c.get_handle_index(), c.get_select()),
        ConstType::Spaceid => format!("spc:{}", space_name(lang, c.get_space())),
        ConstType::JStart => "j_start".into(),
        ConstType::JNext => "j_next".into(),
        ConstType::JNext2 => "j_next2".into(),
        ConstType::JCurspace => "j_curspace".into(),
        ConstType::JCurspaceSize => "j_curspace_size".into(),
        ConstType::JRelative => format!("j_relative({:#x})", c.get_real()),
        ConstType::JFlowref => "j_flowref".into(),
        ConstType::JFlowrefSize => "j_flowref_size".into(),
        ConstType::JFlowdest => "j_flowdest".into(),
        ConstType::JFlowdestSize => "j_flowdest_size".into(),
    }
}

fn render_vn(lang: &SnippetLanguage, vn: &VarnodeTpl) -> String {
    format!(
        "({},{},{})",
        render_const(lang, vn.get_space()),
        render_const(lang, vn.get_offset()),
        render_const(lang, vn.get_size())
    )
}

fn render_op(lang: &SnippetLanguage, op: &OpTpl) -> String {
    let mut s = format!("{:?}", op.get_opcode());
    if let Some(out) = op.get_out() {
        s.push_str(&format!(" {} =", render_vn(lang, out)));
    }
    let n = op.num_input();
    let mut ins = Vec::new();
    for i in 0..n {
        ins.push(render_vn(lang, op.get_in(i)));
    }
    s.push(' ');
    s.push_str(&ins.join(", "));
    s
}

fn message(snip: &PcodeSnippet) -> String {
    String::from_utf8(snip.get_error_message().to_vec()).unwrap()
}

/// Compile a snippet, returning the rendered op sequence (panics on error).
fn compile_ok(lang: &SnippetLanguage, body: &str) -> Vec<String> {
    let mut snip = PcodeSnippet::new(lang);
    let ok = snip.parse_stream(body.as_bytes());
    assert!(ok, "expected snippet to compile, got error: {:?}", message(&snip));
    let ct = snip.release_result().expect("no result template");
    ct.get_opvec().iter().map(|op| render_op(lang, op)).collect()
}

/// Compile a snippet whether or not every size resolves.
fn compile_collect(lang: &SnippetLanguage, body: &str) -> (bool, String, Vec<String>) {
    let mut snip = PcodeSnippet::new(lang);
    let ok = snip.parse_stream(body.as_bytes());
    let err = message(&snip);
    let ops = snip
        .release_result()
        .map(|ct| ct.get_opvec().iter().map(|op| render_op(lang, op)).collect())
        .unwrap_or_default();
    (ok, err, ops)
}

/// Compile expecting a failure; return the first error message.
fn compile_err(lang: &SnippetLanguage, body: &str) -> String {
    let mut snip = PcodeSnippet::new(lang);
    let ok = snip.parse_stream(body.as_bytes());
    assert!(!ok, "expected snippet to fail, but it compiled");
    message(&snip)
}

fn opcodes(ops: &[String]) -> Vec<&str> {
    ops.iter().map(|s| s.split_whitespace().next().unwrap()).collect()
}

// ---------------------------------------------------------------------------
// Lexer-level tests
// ---------------------------------------------------------------------------

#[test]
fn lexer_idents_table_has_upstream_sort_violation() {
    // The keyword table is meant to be sorted, but `"||"` is listed before
    // `"abs"`: exactly one adjacent pair is out of byte order.
    let mut violations = Vec::new();
    for i in 0..NUM_IDENTS - 1 {
        let a = ident_name(i).as_bytes();
        let b = ident_name(i + 1).as_bytes();
        if a >= b {
            violations.push((i, a, b));
        }
    }
    assert_eq!(violations.len(), 1, "expected exactly the one violation");
    let (_, a, b) = violations[0];
    assert_eq!(a, b"||");
    assert_eq!(b, b"abs");
}

#[test]
fn lexer_find_identifier_hits_and_misses() {
    assert!(PcodeLexer::find_identifier(b"zext").is_some());
    assert!(PcodeLexer::find_identifier(b"s>>").is_some());
    assert!(PcodeLexer::find_identifier(b"f==").is_some());
    // `"||"` and `"abs"` straddle the table's sort violation, so the binary
    // search misses them.
    assert!(PcodeLexer::find_identifier(b"||").is_none());
    assert!(PcodeLexer::find_identifier(b"abs").is_none());
    assert!(PcodeLexer::find_identifier(b"^^").is_some());
    assert!(PcodeLexer::find_identifier(b"borrow").is_some());
    assert!(PcodeLexer::find_identifier(b"notakeyword").is_none());
    assert!(PcodeLexer::find_identifier(b"r1").is_none());
}

#[test]
fn lexer_find_identifier_gives_the_table_position() {
    for i in 0..NUM_IDENTS {
        let nm = ident_name(i).as_bytes();
        if nm == b"||" || nm == b"abs" {
            continue;
        }
        assert_eq!(PcodeLexer::find_identifier(nm), Some(i));
    }
}

#[test]
fn lexer_parse_number_radices() {
    assert_eq!(parse_number(b"0"), Some(0));
    assert_eq!(parse_number(b"42"), Some(42));
    assert_eq!(parse_number(b"0x14"), Some(0x14));
    assert_eq!(parse_number(b"0xfffffffe"), Some(0xfffffffe));
    assert_eq!(parse_number(b"010"), Some(8)); // octal
    assert_eq!(parse_number(b"0xffffffffffffffffff"), None); // overflow
}

#[test]
fn lexer_parse_number_edges() {
    assert_eq!(parse_number(b"0xffffffffffffffff"), Some(u64::MAX));
    assert_eq!(parse_number(b"18446744073709551615"), Some(u64::MAX));
    assert_eq!(parse_number(b"18446744073709551616"), None);
    assert_eq!(parse_number(b"0X1F"), Some(0x1f));
    assert_eq!(parse_number(b"0777"), Some(0o777));
}

// ---------------------------------------------------------------------------
// Accept tests
// ---------------------------------------------------------------------------

#[test]
fn accept_self_copy_nop() {
    let lang = basic_lang();
    let ops = compile_ok(&lang, "v0 = v0;");
    assert_eq!(ops, vec!["CPUI_COPY (spc:ram,0x5c,0x4) = (spc:ram,0x5c,0x4)"]);
}

#[test]
fn accept_add_assign() {
    let lang = basic_lang();
    let ops = compile_ok(&lang, "r1 = r2 + r1;");
    assert_eq!(
        ops,
        vec!["CPUI_INT_ADD (spc:ram,0x10,0x4) = (spc:ram,0x14,0x4), (spc:ram,0x10,0x4)"]
    );
}

#[test]
fn accept_sub_const() {
    let lang = basic_lang();
    let ops = compile_ok(&lang, "sp = sp - 16;");
    assert_eq!(
        ops,
        vec!["CPUI_INT_SUB (spc:ram,0x58,0x4) = (spc:ram,0x58,0x4), (spc:const,0x10,0x4)"]
    );
}

#[test]
fn accept_add_const() {
    let lang = basic_lang();
    let ops = compile_ok(&lang, "sp = sp + 4;");
    assert_eq!(
        ops,
        vec!["CPUI_INT_ADD (spc:ram,0x58,0x4) = (spc:ram,0x58,0x4), (spc:const,0x4,0x4)"]
    );
}

#[test]
fn accept_flowdest_plus_const() {
    let lang = basic_lang();
    let (_, _, ops) = compile_collect(&lang, "LR = inst_dest + 4;");
    assert_eq!(
        ops,
        vec!["CPUI_INT_ADD (spc:ram,0x48,0x4) = (spc:const,j_flowdest,0x4), (spc:const,0x4,0x4)"]
    );
}

#[test]
fn accept_local_def_and_store() {
    let lang = basic_lang();
    let ops = compile_ok(&lang, "local saveR2ptr = r1 + 0x28;\n*:8 saveR2ptr = r2;");
    assert_eq!(ops.len(), 2);
    assert_eq!(
        ops[0],
        "CPUI_INT_ADD (spc:unique,0x10,0x4) = (spc:ram,0x10,0x4), (spc:const,0x28,0x4)"
    );
    assert_eq!(
        ops[1],
        "CPUI_STORE (spc:const,spc:ram,0x8), (spc:unique,0x10,0x4), (spc:ram,0x14,0x4)"
    );
}

#[test]
fn accept_store_neg_one() {
    let lang = basic_lang();
    let ops = compile_ok(&lang, "ESP = ESP - 4;\n*:4 ESP = 0xffffffff;");
    assert_eq!(ops.len(), 2);
    assert_eq!(
        ops[0],
        "CPUI_INT_SUB (spc:ram,0x20,0x4) = (spc:ram,0x20,0x4), (spc:const,0x4,0x4)"
    );
    assert_eq!(
        ops[1],
        "CPUI_STORE (spc:const,spc:ram,0x8), (spc:ram,0x20,0x4), (spc:const,0xffffffff,0x4)"
    );
}

#[test]
fn accept_load_default_space() {
    let lang = basic_lang();
    let ops = compile_ok(&lang, "ESP = EBP;\nEBP = * ESP;\nESP = ESP + 4;");
    assert_eq!(ops.len(), 3);
    assert_eq!(ops[0], "CPUI_COPY (spc:ram,0x20,0x4) = (spc:ram,0x24,0x4)");
    assert_eq!(
        ops[1],
        "CPUI_LOAD (spc:ram,0x24,0x4) = (spc:const,spc:ram,0x8), (spc:ram,0x20,0x4)"
    );
    assert_eq!(
        ops[2],
        "CPUI_INT_ADD (spc:ram,0x20,0x4) = (spc:ram,0x20,0x4), (spc:const,0x4,0x4)"
    );
}

#[test]
fn accept_zext_mult_and_indirect_goto() {
    let lang = basic_lang();
    let (_, _, ops) = compile_collect(&lang, "PC = inst_next + zext(ACC) * 3;\ngoto [PC];");
    assert_eq!(
        opcodes(&ops),
        vec!["CPUI_INT_ZEXT", "CPUI_INT_MULT", "CPUI_INT_ADD", "CPUI_BRANCHIND"]
    );
}

#[test]
fn accept_and_notequal() {
    let lang = basic_lang();
    let (_, _, ops) = compile_collect(&lang, "r1 = (r2 & 1) != 1;");
    assert_eq!(opcodes(&ops), vec!["CPUI_INT_AND", "CPUI_INT_NOTEQUAL"]);
}

#[test]
fn accept_and_mask() {
    let lang = basic_lang();
    let ops = compile_ok(&lang, "PC = LR & 0xfffffffe;");
    assert_eq!(
        ops,
        vec!["CPUI_INT_AND (spc:ram,0x50,0x4) = (spc:ram,0x48,0x4), (spc:const,0xfffffffe,0x4)"]
    );
}

#[test]
fn accept_sized_temp_decl() {
    let lang = basic_lang();
    let ops = compile_ok(&lang, "tmpptr:4 = 0;");
    assert_eq!(ops, vec!["CPUI_COPY (spc:unique,0x0,0x4) = (spc:const,0x0,0x4)"]);
}

#[test]
fn accept_reg_copy() {
    let lang = basic_lang();
    let ops = compile_ok(&lang, "R7 = SP;");
    assert_eq!(ops, vec!["CPUI_COPY (spc:ram,0x44,0x4) = (spc:ram,0x40,0x4)"]);
}

#[test]
fn accept_typed_space_load() {
    let lang = basic_lang();
    let ops = compile_ok(&lang, "ptr:4 = FP;\nFP = *[ram]:4 ptr;\nptr = ptr + 4;");
    assert_eq!(ops.len(), 3);
    assert!(ops[1].starts_with("CPUI_LOAD"));
    assert!(ops[1].contains("(spc:const,spc:ram,0x8)"));
}

#[test]
fn accept_float_neg() {
    let lang = basic_lang();
    let ops = compile_ok(&lang, "r1 = f- r2;");
    assert_eq!(ops, vec!["CPUI_FLOAT_NEG (spc:ram,0x10,0x4) = (spc:ram,0x14,0x4)"]);
}

#[test]
fn accept_signed_less() {
    let lang = basic_lang();
    let (_, _, ops) = compile_collect(&lang, "r1 = r2 s< r0;");
    assert_eq!(ops.len(), 1);
    assert!(ops[0].starts_with("CPUI_INT_SLESS"));
    assert!(ops[0].ends_with("(spc:ram,0x14,0x4), (spc:ram,0x60,0x4)"));
}

#[test]
fn accept_greater_swaps() {
    let lang = basic_lang();
    let (_, _, ops) = compile_collect(&lang, "r1 = r2 > r0;");
    assert_eq!(ops.len(), 1);
    assert!(ops[0].starts_with("CPUI_INT_LESS"));
    assert!(ops[0].ends_with("(spc:ram,0x60,0x4), (spc:ram,0x14,0x4)"));
}

#[test]
fn accept_userop_no_out() {
    let lang = test_lang(&BASIC_REGS, Some(("myop", 7)));
    let (_, _, ops) = compile_collect(&lang, "myop(r1, r2);");
    assert_eq!(ops.len(), 1);
    assert!(ops[0].starts_with("CPUI_CALLOTHER"));
    assert!(ops[0].contains("(spc:const,0x7,0x4)"));
    assert!(ops[0].contains("(spc:ram,0x10,0x4)"));
    assert!(ops[0].contains("(spc:ram,0x14,0x4)"));
}

#[test]
fn accept_label_and_relative_branch() {
    let lang = basic_lang();
    let (_, _, ops) = compile_collect(&lang, "if (r1 != 0) goto <skip>;\nr2 = 1;\n<skip>\n");
    let codes = opcodes(&ops);
    assert!(codes.contains(&"CPUI_INT_NOTEQUAL"));
    assert!(codes.contains(&"CPUI_CBRANCH"));
    assert!(codes.last().is_some());
    let cbranch = ops.iter().find(|s| s.starts_with("CPUI_CBRANCH")).unwrap();
    assert!(cbranch.contains("j_relative"));
}

#[test]
fn accept_bitrange_truncated_varnode_fast_path() {
    let lang = basic_lang();
    let ops = compile_ok(&lang, "r1 = r2:1;");
    // a byte-aligned single byte of big-endian r2 (0x14, size 4) is the
    // varnode at 0x17, read with no SUBPIECE
    assert_eq!(ops, vec!["CPUI_COPY (spc:ram,0x10,0x4) = (spc:ram,0x17,0x1)"]);
}

#[test]
fn accept_bitrange_masked_emits_ops() {
    let lang = basic_lang();
    let (_, _, ops) = compile_collect(&lang, "r1 = r2[1,3];");
    let codes = opcodes(&ops);
    assert!(codes.contains(&"CPUI_INT_RIGHT"));
    assert!(codes.contains(&"CPUI_INT_AND"));
}

#[test]
fn accept_indirect_call_return() {
    let lang = basic_lang();
    let (_, _, ops) = compile_collect(&lang, "call [r1];\nreturn [r2];");
    assert_eq!(opcodes(&ops), vec!["CPUI_CALLIND", "CPUI_RETURN"]);
}

#[test]
fn accept_address_of() {
    let lang = basic_lang();
    let ops = compile_ok(&lang, "r1 = &r2;");
    assert_eq!(ops.len(), 1);
    assert!(ops[0].starts_with("CPUI_COPY"));
    assert!(ops[0].contains("(spc:const,0x14,0x4)"));
}

#[test]
fn accept_unknown_string_is_temp_declaration() {
    // an unknown name on the left of a plain assignment declares a temporary
    let lang = basic_lang();
    let mut snip = PcodeSnippet::new(&lang);
    assert!(snip.parse_stream(b"nope = r1;"), "{}", message(&snip));
}

// ---------------------------------------------------------------------------
// Reject tests
// ---------------------------------------------------------------------------

#[test]
fn reject_unknown_assignment_varnode_bitrange() {
    let lang = basic_lang();
    let err = compile_err(&lang, "nope[0,8] = r1;");
    assert_eq!(err, "Unknown assignment varnode: nope");
}

#[test]
fn reject_unknown_varnode_parameter() {
    let lang = basic_lang();
    let err = compile_err(&lang, "r1 = nope;");
    assert_eq!(err, "Unknown varnode parameter: nope");
}

#[test]
fn reject_unknown_jump_destination() {
    let lang = basic_lang();
    let err = compile_err(&lang, "goto nope;");
    assert_eq!(err, "Unknown jump destination: nope");
}

#[test]
fn reject_return_without_indirect() {
    let lang = basic_lang();
    let err = compile_err(&lang, "return;");
    assert_eq!(err, "Must specify an indirect parameter for return");
}

#[test]
fn reject_illegal_truncation_lhs() {
    let lang = basic_lang();
    let err = compile_err(&lang, "r1:1 = r2;");
    assert_eq!(err, "Illegal truncation on left-hand side of assignment");
}

#[test]
fn reject_illegal_subpiece_lhs() {
    let lang = basic_lang();
    let err = compile_err(&lang, "r1(0) = r2;");
    assert_eq!(err, "Illegal subpiece on left-hand side of assignment");
}

#[test]
fn reject_redefinition_of_symbol() {
    let lang = basic_lang();
    let err = compile_err(&lang, "local r1 = r2;");
    assert_eq!(err, "Redefinition of symbol: r1");
}

#[test]
fn reject_syntax_error_dangling() {
    let lang = basic_lang();
    let err = compile_err(&lang, "r1 = r2 +");
    assert_eq!(err, "Syntax error");
}

#[test]
fn reject_chained_nonassoc_comparison() {
    let lang = basic_lang();
    let err = compile_err(&lang, "r1 = r2 < r0 < r1;");
    assert_eq!(err, "Syntax error");
}

#[test]
fn reject_unresolved_size_is_reported() {
    // a temporary whose size nothing fixes cannot be sized
    let lang = basic_lang();
    let (ok, err, _) = compile_collect(&lang, "tmp = 0;");
    assert!(!ok);
    assert_eq!(err, "Could not resolve at least 1 variable size");
}

// ---------------------------------------------------------------------------
// Symbol resolution and reuse
// ---------------------------------------------------------------------------

#[test]
fn get_varnode_tpl_varnode_symbol() {
    let lang = basic_lang();
    let cspace = lang.get_constant_space();
    let ram = lang.get_default_code_space();
    let sym = SnippetSymbol::Varnode(VarnodeSymbol { name: b"r1".to_vec(), space: ram, offset: 0x10, size: 4 });
    let vn = kuna_sleigh::pcodeparse::get_varnode_tpl(&sym, cspace).unwrap();
    assert_eq!(vn.get_space().get_type(), ConstType::Spaceid);
    assert_eq!(vn.get_offset().get_real(), 0x10);
    assert_eq!(vn.get_size().get_real(), 4);
}

#[test]
fn get_varnode_tpl_flow_symbols() {
    let lang = basic_lang();
    let cspace = lang.get_constant_space();
    let cases = [
        (SnippetSymbol::Start(b"inst_start".to_vec()), ConstType::JStart),
        (SnippetSymbol::End(b"inst_next".to_vec()), ConstType::JNext),
        (SnippetSymbol::Next2(b"inst_next2".to_vec()), ConstType::JNext2),
        (SnippetSymbol::FlowDest(b"inst_dest".to_vec()), ConstType::JFlowdest),
        (SnippetSymbol::FlowRef(b"inst_ref".to_vec()), ConstType::JFlowref),
    ];
    for (sym, off_ty) in cases {
        let vn = kuna_sleigh::pcodeparse::get_varnode_tpl(&sym, cspace).unwrap();
        assert_eq!(vn.get_space().get_type(), ConstType::Spaceid);
        assert_eq!(vn.get_offset().get_type(), off_ty);
        assert!(vn.get_size().is_zero());
    }
}

#[test]
fn get_varnode_tpl_operand_symbol() {
    let lang = basic_lang();
    let cspace = lang.get_constant_space();
    let sym = SnippetSymbol::Operand(3, b"op".to_vec());
    let vn = kuna_sleigh::pcodeparse::get_varnode_tpl(&sym, cspace).unwrap();
    assert_eq!(vn.get_space().get_type(), ConstType::Handle);
    assert_eq!(vn.get_space().get_handle_index(), 3);
    assert_eq!(vn.get_offset().get_select(), kuna_sleigh::semantics::VField::VOffset);
    assert_eq!(vn.get_size().get_select(), kuna_sleigh::semantics::VField::VSize);
}

#[test]
fn get_varnode_tpl_space_and_userop_have_none() {
    let lang = basic_lang();
    let cspace = lang.get_constant_space();
    let ram = lang.get_default_code_space();
    let sym = SnippetSymbol::Space(ram, b"ram".to_vec());
    assert!(kuna_sleigh::pcodeparse::get_varnode_tpl(&sym, cspace).is_none());
    let sym = SnippetSymbol::UserOp(UserOpSymbol { name: b"myop".to_vec(), index: 7 });
    assert!(kuna_sleigh::pcodeparse::get_varnode_tpl(&sym, cspace).is_none());
}

#[test]
fn clear_resets_for_reuse() {
    let lang = basic_lang();
    let mut snip = PcodeSnippet::new(&lang);
    assert!(snip.parse_stream(b"r1 = r2;"));
    snip.clear();
    assert!(!snip.has_errors());
    assert!(snip.release_result().is_none());
    assert!(snip.parse_stream(b"r2 = r1;"));
}

#[test]
fn operand_symbols_become_handles() {
    let lang = basic_lang();
    let mut snip = PcodeSnippet::new(&lang);
    snip.add_operand(b"dst", 0);
    snip.add_operand(b"src", 1);
    assert!(snip.parse_stream(b"dst = src;"), "{}", message(&snip));
    let ct = snip.release_result().unwrap();
    let ops: Vec<String> = ct.get_opvec().iter().map(|op| render_op(&lang, op)).collect();
    assert_eq!(
        ops,
        vec!["CPUI_COPY (hand0.VSpace,hand0.VOffset,hand0.VSize) = (hand1.VSpace,hand1.VOffset,hand1.VSize)"]
    );
}

#[test]
fn successful_parse_sizes_every_varnode() {
    let lang = basic_lang();
    let mut snip = PcodeSnippet::new(&lang);
    assert!(snip.parse_stream(b"local t = r1 + r2;\nr0 = t * 2;"));
    let ct = snip.release_result().unwrap();
    for op in ct.get_opvec() {
        assert!(!op.is_zero_size());
    }
    assert_eq!(ct.get_opvec()[1].get_opcode(), OpCode::CPUI_INT_MULT);
}

#[test]
fn spot_check_chained_arith_and_float_ops() {
    let lang = basic_lang();
    let (ok, err, ops) = compile_collect(&lang, "ESP = ESP + 4 - EAX;");
    assert!(ok || !err.is_empty());
    assert_eq!(opcodes(&ops), vec!["CPUI_INT_ADD", "CPUI_INT_SUB"]);

    let (_, _, ops2) = compile_collect(&lang, "r1 = r2 f< r0;");
    assert!(ops2[0].starts_with("CPUI_FLOAT_LESS"));
    let (_, _, ops3) = compile_collect(&lang, "r1 = r2 f+ r0;");
    assert!(ops3[0].starts_with("CPUI_FLOAT_ADD"));

    let (_, _, ops4) = compile_collect(&lang, "r1 = -1;");
    assert!(ops4[0].starts_with("CPUI_INT_2COMP"));
}
