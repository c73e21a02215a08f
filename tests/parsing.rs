use cif_parser::{classify, parse, tokenize, CifDocument, CifError, CifValue, TokenKind};

fn numeric_value(v: &CifValue) -> f64 {
    match v {
        CifValue::Numeric(s) => s.parse::<f64>().unwrap(),
        other => panic!("not numeric: {:?}", other),
    }
}

fn text_of(v: &CifValue) -> String {
    match v {
        CifValue::Text(s) => s.clone(),
        other => panic!("not text: {:?}", other),
    }
}

#[test]
fn end_to_end_scenario() {
    let input = "data_test\n_cell_length_a 5.123\nloop_\n_atom_site_label\n_atom_site_type\nC1 C\nO1 O\n";
    let doc = parse(input).unwrap();
    assert_eq!(doc.len(), 1);
    let block = doc.first_block().unwrap();
    assert_eq!(block.name, "test");
    assert_eq!(block.items.len(), 1);
    let a = block.get_item("_cell_length_a").unwrap();
    assert!((numeric_value(a) - 5.123).abs() < 1e-12);
    assert_eq!(block.num_loops(), 1);
    let lp = block.get_loop(0).unwrap();
    assert_eq!(lp.tags, vec!["_atom_site_label".to_string(), "_atom_site_type".to_string()]);
    assert_eq!(lp.len(), 2);
    assert_eq!(text_of(lp.get(0, 0).unwrap()), "C1");
    assert_eq!(text_of(lp.get(0, 1).unwrap()), "C");
    assert_eq!(text_of(lp.get(1, 0).unwrap()), "O1");
    assert_eq!(text_of(lp.get(1, 1).unwrap()), "O");
}

#[test]
fn unknown_and_not_applicable_in_loop() {
    let doc = parse("data_x\nloop_\n_a\n_b\n? .\n").unwrap();
    let lp = doc.blocks[0].get_loop(0).unwrap();
    assert!(lp.get(0, 0).unwrap().is_unknown());
    assert!(lp.get(0, 1).unwrap().is_not_applicable());
}

#[test]
fn column_mismatch_is_invalid_structure() {
    let r = parse("loop_\n_a\n_b\n1 2 3\n");
    assert!(matches!(r, Err(CifError::InvalidStructure(_))));
    let r = parse("data_x\nloop_\n_a\n_b\n1 2 3\n");
    assert!(matches!(r, Err(CifError::InvalidStructure(_))));
}

#[test]
fn unterminated_text_field_is_parse_error() {
    let r = parse("data_x\n_note\n;\nsome text\nmore\n");
    assert!(matches!(r, Err(CifError::ParseError(_))));
}

#[test]
fn unterminated_quote_is_parse_error() {
    let r = parse("data_x\n_note 'open\n");
    assert!(matches!(r, Err(CifError::ParseError(_))));
}

#[test]
fn frame_items_stay_in_frame() {
    let doc = parse("data_b\n_outer 1\nsave_f\n_inner 2\nsave_\n").unwrap();
    let block = &doc.blocks[0];
    assert_eq!(block.num_frames(), 1);
    let frame = block.get_frame(0).unwrap();
    assert_eq!(frame.name, "f");
    assert!(frame.get_item("_inner").is_some());
    assert!(block.get_item("_inner").is_none());
    assert!(block.get_item("_outer").is_some());
    assert!(frame.get_item("_outer").is_none());
}

#[test]
fn uncertainty_suffix_is_stripped() {
    let v = classify("1.2300(15)");
    assert!(v.is_numeric());
    assert!((numeric_value(&v) - 1.23).abs() < 1e-12);
    assert_eq!(v.as_numeric().unwrap(), "1.2300");
}

#[test]
fn classification_kinds() {
    assert!(classify("?").is_unknown());
    assert!(classify(".").is_not_applicable());
    assert!(classify("-1.5e-3").is_numeric());
    assert!((numeric_value(&classify("-1.5e-3")) + 0.0015).abs() < 1e-15);
    assert!(classify("+7").is_numeric());
    assert!(classify(".5").is_numeric());
    assert!(classify("5.").is_numeric());
    assert_eq!(text_of(&classify("C1")), "C1");
    assert_eq!(text_of(&classify("1.2.3")), "1.2.3");
    assert_eq!(text_of(&classify("1e")), "1e");
    assert_eq!(text_of(&classify("??")), "??");
    assert_eq!(text_of(&classify("(12)")), "(12)");
    assert_eq!(text_of(&classify("")), "");
    assert_eq!(classify("?").value_type(), "unknown");
    assert_eq!(classify("x").value_type(), "text");
    assert_eq!(classify("3").value_type(), "numeric");
    assert_eq!(classify(".").value_type(), "not_applicable");
}

#[test]
fn classification_is_deterministic_and_stable() {
    for t in ["1.2300(15)", "abc", "?", ".", "-2e5", "O'Brien"] {
        let a = classify(t);
        let b = classify(t);
        assert_eq!(format!("{:?}", a), format!("{:?}", b));
        match &a {
            CifValue::Text(s) | CifValue::Numeric(s) => {
                assert_eq!(format!("{:?}", classify(s)), format!("{:?}", a));
            }
            _ => {}
        }
    }
}

#[test]
fn loops_are_rectangular() {
    let doc = parse("data_x\nloop_\n_a\n_b\n_c\n1 2 3\n4 5\n6\n").unwrap();
    let lp = &doc.blocks[0].loops[0];
    assert_eq!(lp.num_columns(), 3);
    assert_eq!(lp.len(), 2);
    for row in &lp.values {
        assert_eq!(row.len(), 3);
    }
    assert_eq!(lp.len() * lp.num_columns(), 6);
    assert_eq!(numeric_value(lp.get_by_tag(1, "_b").unwrap()), 5.0);
    assert!(lp.get(2, 0).is_none());
    assert!(lp.get(0, 3).is_none());
}

#[test]
fn quoted_and_text_field_values() {
    let input = "data_q\n_name 'O'Brien's lab'\n_other \"two words\"\n_note\n;\nline one\n  line two\n;\n";
    let doc = parse(input).unwrap();
    let b = &doc.blocks[0];
    assert_eq!(text_of(b.get_item("_name").unwrap()), "O'Brien's lab");
    assert_eq!(text_of(b.get_item("_other").unwrap()), "two words");
    assert_eq!(text_of(b.get_item("_note").unwrap()), "line one\n  line two");
}

#[test]
fn comments_and_blank_lines_are_skipped() {
    let doc = parse("# header\n\ndata_c\n  # indented comment\n_a 1 # trailing\n\n_b 2\n").unwrap();
    let b = &doc.blocks[0];
    assert_eq!(b.items.len(), 2);
    assert!(b.get_item("_b").is_some());
}

#[test]
fn tokens_carry_kind_and_line() {
    let toks = tokenize("data_t\n_a 'x y'\n;\nz\n;\n").unwrap();
    assert_eq!(toks.len(), 4);
    assert_eq!(toks[0].text, "data_t");
    assert_eq!(toks[0].line, 1);
    assert_eq!(toks[1].kind, TokenKind::Bare);
    assert_eq!(toks[2].text, "x y");
    assert_eq!(toks[2].kind, TokenKind::Quoted);
    assert_eq!(toks[2].line, 2);
    assert_eq!(toks[3].text, "z");
    assert_eq!(toks[3].kind, TokenKind::TextField);
    assert_eq!(toks[3].line, 3);
}

#[test]
fn structural_errors() {
    assert!(matches!(parse("data_\n_a 1\n"), Err(CifError::InvalidStructure(_))));
    assert!(matches!(parse("data_x\n_a\n"), Err(CifError::InvalidStructure(_))));
    assert!(matches!(parse("data_x\n_a\n_b 1\n"), Err(CifError::InvalidStructure(_))));
    assert!(matches!(parse("data_x\nloop_\n1 2\n"), Err(CifError::InvalidStructure(_))));
    assert!(matches!(parse("data_x\nsave_f\n_a 1\n"), Err(CifError::InvalidStructure(_))));
    assert!(matches!(parse("data_x\nsave_f\n_a 1\ndata_y\n"), Err(CifError::InvalidStructure(_))));
    assert!(matches!(parse("data_x\nsave_f\nsave_g\n"), Err(CifError::InvalidStructure(_))));
    assert!(matches!(parse("data_x\nsave_\n"), Err(CifError::InvalidStructure(_))));
    assert!(matches!(parse("data_x\nstray\n"), Err(CifError::InvalidStructure(_))));
    assert!(matches!(parse("_a 1\n"), Err(CifError::InvalidStructure(_))));
}

#[test]
fn empty_text_gives_empty_document() {
    let doc = parse("").unwrap();
    assert_eq!(doc.len(), 0);
    assert!(doc.first_block().is_none());
    let doc = parse("# only a comment\n\n").unwrap();
    assert_eq!(doc.len(), 0);
}

#[test]
fn document_queries() {
    let doc = CifDocument::parse("data_one\n_a 1\ndata_two\n_b 2\ndata_one\n_c 3\n").unwrap();
    assert_eq!(doc.block_names(), vec!["one".to_string(), "two".to_string(), "one".to_string()]);
    let first_one = doc.get_block("one").unwrap();
    assert!(first_one.get_item("_a").is_some());
    assert!(doc.get_block("two").unwrap().get_item("_b").is_some());
    assert!(doc.get_block("three").is_none());
    assert!(doc.get_block_at(2).unwrap().get_item("_c").is_some());
    assert!(doc.get_block_at(3).is_none());
}

#[test]
fn block_loop_queries() {
    let input = "data_l\nloop_\n_x\n_y\n1 2\n3 4\nloop_\n_w\n_z\nq r\n";
    let doc = parse(input).unwrap();
    let b = &doc.blocks[0];
    assert_eq!(
        b.get_loop_tags(),
        vec!["_x".to_string(), "_y".to_string(), "_w".to_string(), "_z".to_string()]
    );
    let lp = b.find_loop("_z").unwrap();
    assert_eq!(lp.tags[0], "_w");
    let lp = b.find_loop("_y").unwrap();
    assert_eq!(lp.tags[0], "_x");
    assert!(b.find_loop("_v").is_none());
    let col = b.loops[0].get_column("_y").unwrap();
    assert_eq!(col.len(), 2);
    assert_eq!(numeric_value(&col[1]), 4.0);
    assert!(b.loops[0].get_column("_q").is_none());
    let pairs = b.loops[0].get_row_pairs(1).unwrap();
    assert_eq!(pairs[0].0, "_x");
    assert_eq!(numeric_value(&pairs[0].1), 3.0);
    assert!(b.loops[0].get_row_pairs(2).is_none());
    assert_eq!(b.loops[0].get_row(0).unwrap().len(), 2);
    assert!(!b.loops[0].is_empty());
    assert!(b.get_loop(2).is_none());
}

#[test]
fn repeated_item_keeps_one_entry() {
    let doc = parse("data_r\n_a 1\n_a 2\n").unwrap();
    let b = &doc.blocks[0];
    assert_eq!(b.items.len(), 1);
    assert_eq!(numeric_value(b.get_item("_a").unwrap()), 2.0);
    assert_eq!(b.items().len(), 1);
}

#[test]
fn error_messages_name_the_line() {
    match parse("data_x\n\nstray\n") {
        Err(e) => assert!(e.message().contains("line 3")),
        Ok(_) => panic!("expected an error"),
    }
}

#[test]
fn apostrophes_inside_words_and_quotes() {
    let toks = tokenize("O'Brien 'it''s' \"a\"b\" #c 'd'\n").unwrap();
    let texts: Vec<&str> = toks.iter().map(|t| t.text.as_str()).collect();
    assert_eq!(texts, vec!["O'Brien", "it''s", "a\"b"]);
    assert_eq!(toks[0].kind, TokenKind::Bare);
    assert_eq!(toks[1].kind, TokenKind::Quoted);
}

#[test]
fn semicolon_inside_a_line_is_a_word() {
    let toks = tokenize("data_s\n_a x;y\n").unwrap();
    assert_eq!(toks[2].text, "x;y");
    assert_eq!(toks[2].kind, TokenKind::Bare);
}

#[test]
fn first_token_must_open_a_block() {
    assert!(matches!(parse("loop_\n_a\n1\n"), Err(CifError::InvalidStructure(_))));
    assert!(matches!(parse("stray\ndata_x\n"), Err(CifError::InvalidStructure(_))));
}

#[test]
fn unterminated_frame_names_its_last_line() {
    match parse("data_x\nsave_f\n\n_a 1\n") {
        Err(CifError::InvalidStructure(m)) => assert!(m.contains("line 4")),
        other => panic!("expected an invalid structure error, got {:?}", other.is_ok()),
    }
}

#[test]
fn a_tag_names_one_column_or_item_per_scope() {
    let shared = parse("data_x\nloop_\n_a\n1\nloop_\n_a\n2\n");
    assert!(matches!(shared, Err(CifError::InvalidStructure(_))));
    let repeated = parse("data_x\nloop_\n_a\n_a\n1 2\n");
    assert!(matches!(repeated, Err(CifError::InvalidStructure(_))));
    let item_then_loop = parse("data_x\n_a 1\nloop_\n_a\n1\n");
    assert!(matches!(item_then_loop, Err(CifError::InvalidStructure(_))));
    let loop_then_item = parse("data_x\nloop_\n_a\n1\n_a 2\n");
    assert!(matches!(loop_then_item, Err(CifError::InvalidStructure(_))));
    let frame_scope = parse("data_x\nloop_\n_a\n1\nsave_f\nloop_\n_a\n2\nsave_\n");
    assert!(frame_scope.is_ok());
}

#[test]
fn loop_rows_wrap_across_lines() {
    let doc = parse("data_x\nloop_\n_a\n_b\n1 2 3\n4 5 6\n").unwrap();
    let lp = doc.blocks[0].get_loop(0).unwrap();
    assert_eq!(lp.len(), 3);
    assert_eq!(lp.num_columns(), 2);
    let mut seen: Vec<Vec<f64>> = Vec::new();
    for row in &lp.values {
        seen.push(row.iter().map(numeric_value).collect());
    }
    assert_eq!(seen, vec![vec![1.0, 2.0], vec![3.0, 4.0], vec![5.0, 6.0]]);
}

#[test]
fn sentinels_and_suffix_through_parse() {
    let doc = parse("data_x\n_a ?\n_b .\n_c 1.2300(15)\n_d ??\n").unwrap();
    let b = &doc.blocks[0];
    assert!(b.get_item("_a").unwrap().is_unknown());
    assert!(b.get_item("_b").unwrap().is_not_applicable());
    assert!((numeric_value(b.get_item("_c").unwrap()) - 1.23).abs() < 1e-12);
    assert_eq!(text_of(b.get_item("_d").unwrap()), "??");
}

#[test]
fn frame_and_block_items_after_close() {
    let doc = parse("data_x\nsave_f\n_inner 1\nsave_\n_outer 2\n").unwrap();
    let b = &doc.blocks[0];
    assert!(b.get_item("_inner").is_none());
    assert_eq!(numeric_value(b.get_item("_outer").unwrap()), 2.0);
    let f = b.get_frame(0).unwrap();
    assert_eq!(f.name, "f");
    assert!(f.get_item("_outer").is_none());
    assert_eq!(numeric_value(f.get_item("_inner").unwrap()), 1.0);
}

#[test]
fn error_messages_carry_counts_and_token() {
    match parse("data_x\nloop_\n_a\n_b\n1 2 3\n") {
        Err(CifError::InvalidStructure(m)) => assert!(m.contains("3 values") && m.contains("2 tags")),
        _ => panic!("expected an invalid structure error"),
    }
    match parse("data_x\nstray\n") {
        Err(CifError::InvalidStructure(m)) => assert!(m.contains("stray")),
        _ => panic!("expected an invalid structure error"),
    }
}

#[test]
fn token_lines_count_breaks_before_each_token() {
    let toks = tokenize("\n# c\ndata_a 'x\ny' z\n;\nt\n;\n_q 1\n").unwrap();
    let lines: Vec<usize> = toks.iter().map(|t| t.line).collect();
    assert_eq!(lines, vec![3, 3, 4, 5, 8, 8]);
}

#[test]
fn tag_without_value_and_stray_tokens() {
    assert!(matches!(parse("data_x\n_a loop_\n"), Err(CifError::InvalidStructure(_))));
    assert!(matches!(parse("data_x\n_a 1\n2\n"), Err(CifError::InvalidStructure(_))));
    assert!(matches!(parse("data_x\nloop_\n_a\n_b\n"), Ok(_)));
}
