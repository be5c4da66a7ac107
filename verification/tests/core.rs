use pdfcore::lexer::Lexer;
use pdfcore::parser::Parser;
use pdfcore::primitives::{Primitives, RealVal};
use pdfcore::reader::Reader;
use pdfcore::stream::Stream;
use pdfcore::xref::{EntryKind, XRef};

fn lexer_on(bytes: &[u8]) -> Lexer {
    Lexer::new(Stream::from_vec(bytes.to_vec()))
}

fn parser_on(bytes: &[u8]) -> Parser {
    Parser::new(lexer_on(bytes), false)
}

#[test]
fn peek_then_get_byte() {
    let mut s = Stream::from_vec(vec![7, 8, 9]);
    assert_eq!(s.peek_byte(), Some(7));
    assert_eq!(s.get_byte(), Some(7));
    assert_eq!(s.pos(), 1);
    assert_eq!(s.peek_byte(), Some(8));
    s.set_pos(3);
    assert_eq!(s.peek_byte(), None);
    assert_eq!(s.get_byte(), None);
    assert_eq!(s.pos(), 3);
}

#[test]
fn multibyte_reads() {
    let mut s = Stream::from_vec(vec![0x01, 0x02, 0xff, 0x00, 0x00, 0x01]);
    assert_eq!(s.get_uint16(), Some(0x0102));
    assert_eq!(s.get_int32(), Some(-16777215));
    assert_eq!(s.get_uint16(), None);
}

#[test]
fn substream_is_independent() {
    let s = Stream::from_vec(vec![1, 2, 3, 4, 5]);
    let mut sub = s.new_sub(2);
    assert_eq!(sub.start(), 2);
    assert_eq!(sub.pos(), 2);
    assert_eq!(sub.end(), 5);
    assert_eq!(sub.get_byte(), Some(3));
    assert_eq!(s.pos(), 0);
}

#[test]
fn number_leading_point_negative() {
    // -.5 is the real number -5 * 10^-1
    let mut l = lexer_on(b"-.5 ");
    match l.get_obj() {
        Ok(Primitives::Real(r)) => assert_eq!(r, RealVal { num: -5, exp10: -1 }),
        other => panic!("expected a real, got {:?}", other),
    }
}

#[test]
fn number_double_negative() {
    let mut l = lexer_on(b"--5 ");
    match l.get_obj() {
        Ok(Primitives::Int(n)) => assert_eq!(n, -5),
        other => panic!("expected an integer, got {:?}", other),
    }
}

#[test]
fn number_lone_point_is_zero_with_diagnostic() {
    let mut l = lexer_on(b". ");
    let before = l.diagnostics();
    match l.get_obj() {
        Ok(Primitives::Real(r)) => assert_eq!(r, RealVal { num: 0, exp10: 0 }),
        other => panic!("expected a real, got {:?}", other),
    }
    assert_eq!(l.diagnostics(), before + 1);
}

#[test]
fn number_signed_lone_point_is_zero_with_diagnostic() {
    // the lone decimal point keeps the tolerance under a sign too
    let mut l = lexer_on(b"-. ");
    let before = l.diagnostics();
    match l.get_obj() {
        Ok(Primitives::Real(r)) => assert_eq!(r, RealVal { num: 0, exp10: 0 }),
        other => panic!("expected a real, got {:?}", other),
    }
    assert_eq!(l.diagnostics(), before + 1);
    let mut l2 = lexer_on(b"+. ");
    match l2.get_obj() {
        Ok(Primitives::Real(r)) => assert_eq!(r, RealVal { num: 0, exp10: 0 }),
        other => panic!("expected a real, got {:?}", other),
    }
}

#[test]
fn number_scientific_and_plain() {
    let mut l = lexer_on(b"12 1.5e1 2e-1 ");
    match l.get_obj() {
        Ok(Primitives::Int(n)) => assert_eq!(n, 12),
        other => panic!("unexpected {:?}", other),
    }
    match l.get_obj() {
        Ok(Primitives::Int(n)) => assert_eq!(n, 15),
        other => panic!("unexpected {:?}", other),
    }
    match l.get_obj() {
        Ok(Primitives::Real(r)) => assert_eq!(r, RealVal { num: 2, exp10: -1 }),
        other => panic!("unexpected {:?}", other),
    }
}

#[test]
fn string_octal_escape() {
    let mut l = lexer_on(b"(a\\053b)");
    match l.get_obj() {
        Ok(Primitives::Str(b)) => assert_eq!(b, b"a+b".to_vec()),
        other => panic!("expected a string, got {:?}", other),
    }
}

#[test]
fn string_backslash_n_escape() {
    let mut l = lexer_on(b"(a\\nb)");
    match l.get_obj() {
        Ok(Primitives::Str(b)) => assert_eq!(b, b"a\nb".to_vec()),
        other => panic!("expected a string, got {:?}", other),
    }
}

#[test]
fn string_nested_parens_kept() {
    let mut l = lexer_on(b"(a(b)c)");
    match l.get_obj() {
        Ok(Primitives::Str(b)) => assert_eq!(b, b"a(b)c".to_vec()),
        other => panic!("expected a string, got {:?}", other),
    }
}

#[test]
fn name_hex_escape() {
    let mut l = lexer_on(b"/A#20B ");
    match l.get_obj() {
        Ok(Primitives::Name(n)) => assert_eq!(n.0, b"A B".to_vec()),
        other => panic!("expected a name, got {:?}", other),
    }
}

#[test]
fn hex_string_odd_digit_padded() {
    let mut l = lexer_on(b"<901fa>");
    match l.get_obj() {
        Ok(Primitives::HexStr(b)) => assert_eq!(b, vec![0x90, 0x1f, 0xa0]),
        other => panic!("expected a hex string, got {:?}", other),
    }
}

#[test]
fn double_angle_is_one_command() {
    let mut l = lexer_on(b"<<");
    match l.get_obj() {
        Ok(p) => assert!(p.is_cmd("<<")),
        other => panic!("expected a command, got {:?}", other),
    }
}

#[test]
fn token_after_inline_image_marker_not_buffered() {
    let mut p = parser_on(b"BI ID QQ");
    match p.get_obj() {
        Ok(o) => assert!(o.is_cmd("BI")),
        other => panic!("unexpected {:?}", other),
    }
    // the `ID` was promoted without lexing past it: the freed slot holds
    // the end-of-file token, not a token read from the image bytes
    assert!(matches!(p.buf2(), Some(Primitives::EOF)));
    match p.get_obj() {
        Ok(o) => assert!(o.is_cmd("ID")),
        other => panic!("unexpected {:?}", other),
    }
    assert!(matches!(p.buf1(), Some(Primitives::EOF)));
}

#[test]
fn lexer_round_trips_tokens() {
    // writing a token out and lexing it again returns the same token
    let mut l = lexer_on(b"42 -17 (ab) <0a1b> /Key cmd");
    assert_eq!(l.get_obj().unwrap().get_integer(), Some(42));
    assert_eq!(l.get_obj().unwrap().get_integer(), Some(-17));
    assert_eq!(l.get_obj().unwrap().get_str().cloned(), Some(b"ab".to_vec()));
    assert_eq!(
        l.get_obj().unwrap().get_hexstr().cloned(),
        Some(vec![0x0a, 0x1b])
    );
    match l.get_obj() {
        Ok(Primitives::Name(n)) => assert_eq!(n.0, b"Key".to_vec()),
        other => panic!("unexpected {:?}", other),
    }
    assert_eq!(l.get_obj().unwrap().get_cmd().cloned(), Some(b"cmd".to_vec()));
    assert!(matches!(l.get_obj(), Ok(Primitives::EOF)));
}

#[test]
fn peek_object_is_transparent() {
    // peeking returns the same token as getting and restores the position
    let mut l = lexer_on(b" 42 /N ");
    let peeked = l.peek_obj().unwrap().get_integer();
    let got = l.get_obj().unwrap().get_integer();
    assert_eq!(peeked, Some(42));
    assert_eq!(got, Some(42));
    match l.get_obj() {
        Ok(Primitives::Name(n)) => assert_eq!(n.0, b"N".to_vec()),
        other => panic!("unexpected {:?}", other),
    }
}

#[test]
fn comments_are_skipped() {
    let mut l = lexer_on(b"% a comment\n 7 ");
    assert_eq!(l.get_obj().unwrap().get_integer(), Some(7));
}

#[test]
fn skip_to_next_line_handles_crlf() {
    let mut l = lexer_on(b"ab\r\ncd");
    l.skip_to_next_line();
    assert_eq!(l.get_obj().unwrap().get_cmd().cloned(), Some(b"cd".to_vec()));
}

#[test]
fn indirect_reference_pattern() {
    let mut p = parser_on(b"1 0 R ");
    match p.get_obj() {
        Ok(Primitives::Ref(r)) => {
            assert_eq!(r.0, 1);
            assert_eq!(r.1, 0);
        },
        other => panic!("expected a reference, got {:?}", other),
    }
}

#[test]
fn malformed_dictionary_recovers() {
    // a non-name key between entries draws a diagnostic and is skipped
    let mut p = parser_on(b"<< /A 1 42 /B 2 >>");
    let before = p.diagnostics();
    let d = match p.get_obj() {
        Ok(o) => o.get_dict().expect("a dictionary"),
        other => panic!("unexpected {:?}", other),
    };
    assert_eq!(
        d.get(&b"A".to_vec()).and_then(|v| v.get_integer()),
        Some(1)
    );
    assert_eq!(
        d.get(&b"B".to_vec()).and_then(|v| v.get_integer()),
        Some(2)
    );
    assert!(d.get(&b"42".to_vec()).is_none());
    assert!(p.diagnostics() > before);
}

#[test]
fn dictionary_round_trips_keys_and_values() {
    let mut p = parser_on(b"<< /K1 7 /K2 (v) >>");
    let d = p.get_obj().unwrap().get_dict().unwrap();
    assert_eq!(
        d.get(&b"K1".to_vec()).and_then(|v| v.get_integer()),
        Some(7)
    );
    assert_eq!(
        d.get(&b"K2".to_vec()).and_then(|v| v.get_str().cloned()),
        Some(b"v".to_vec())
    );
}

#[test]
fn duplicate_dictionary_key_overwrites() {
    let mut p = parser_on(b"<< /K 1 /K 2 >>");
    let before = p.diagnostics();
    let d = p.get_obj().unwrap().get_dict().unwrap();
    assert_eq!(d.get(&b"K".to_vec()).and_then(|v| v.get_integer()), Some(2));
    assert!(p.diagnostics() > before);
}

#[test]
fn array_truncated_by_end_of_file() {
    let mut p = parser_on(b"[ 1 2 3");
    let before = p.diagnostics();
    match p.get_obj() {
        Ok(Primitives::Array(a)) => {
            assert_eq!(a.len(), 3);
            assert_eq!(a[0].get_integer(), Some(1));
            assert_eq!(a[1].get_integer(), Some(2));
            assert_eq!(a[2].get_integer(), Some(3));
        },
        other => panic!("expected an array, got {:?}", other),
    }
    assert_eq!(p.diagnostics(), before + 1);
}

#[test]
fn startxref_with_trailing_junk() {
    let mut r = Reader {
        stream: Stream::from_vec(b"startxref\n12345\n%%EOF\n\0\0".to_vec()),
    };
    assert_eq!(r.parse_startxref(), 12345);
}

#[test]
fn startxref_missing_yields_zero() {
    let mut r = Reader {
        stream: Stream::from_vec(b"no marker anywhere".to_vec()),
    };
    assert_eq!(r.parse_startxref(), 0);
}

#[test]
fn minimal_file_resolves() {
    let bytes = b"xref\n0 2\n0000000000 65535 f \n0000000015 00000 n \ntrailer\n<< /Size 2 /Root 1 0 R >>\nstartxref\n0\n%%EOF";
    let stream = Stream::from_vec(bytes.to_vec());
    let mut r = Reader { stream };
    let sx = r.parse_startxref();
    assert_eq!(sx, 0);
    let x = XRef::parse(r.stream, sx, None).expect("a resolvable file");
    assert_eq!(x.num_entries(), 2);
    let e0 = x.entry(0).unwrap();
    assert_eq!(e0.kind, EntryKind::Free);
    assert_eq!(e0.gen, 65535);
    let e1 = x.entry(1).unwrap();
    assert_eq!(e1.kind, EntryKind::InUseUncompressed);
    assert_eq!(e1.offset, 15);
    let t = x.trailer();
    assert_eq!(
        t.get(&b"Size".to_vec()).and_then(|v| v.get_integer()),
        Some(2)
    );
    match t.get(&b"Root".to_vec()) {
        Some(Primitives::Ref(r)) => {
            assert_eq!(r.0, 1);
            assert_eq!(r.1, 0);
        },
        other => panic!("expected a reference, got {:?}", other),
    }
}

#[test]
fn mis_stated_first_entry_renormalizes() {
    // the header claims `1 2` but the first entry is the free object 0
    let bytes = b"xref\n1 2\n0000000000 65535 f \n0000000015 00000 n \ntrailer\n<< /Size 2 >>\nstartxref\n0\n%%EOF";
    let x = XRef::parse(Stream::from_vec(bytes.to_vec()), 0, None).expect("renormalized");
    assert_eq!(x.num_entries(), 2);
    assert_eq!(x.entry(0).unwrap().kind, EntryKind::Free);
    assert_eq!(x.entry(1).unwrap().offset, 15);
}

#[test]
fn multi_revision_newest_wins() {
    let older = b"xref\n0 3\n0000000000 65535 f \n0000000111 00000 n \n0000000222 00000 n \ntrailer\n<< /Size 3 >>\n".to_vec();
    let newer_at = older.len() as u64;
    let mut bytes = older.clone();
    bytes.extend_from_slice(b"xref\n1 1\n0000000333 00001 n \ntrailer\n<< /Size 3 /Prev 0 >>\n");
    let x = XRef::parse(Stream::from_vec(bytes), newer_at, None).expect("two revisions");
    assert_eq!(x.num_entries(), 3);
    // the newer revision's entry for object 1 stands
    assert_eq!(x.entry(1).unwrap().offset, 333);
    assert_eq!(x.entry(1).unwrap().gen, 1);
    // entries unique to the older revision remain
    assert_eq!(x.entry(0).unwrap().kind, EntryKind::Free);
    assert_eq!(x.entry(2).unwrap().offset, 222);
}

#[test]
fn entry_zero_must_be_free() {
    let bytes =
        b"xref\n0 2\n0000000010 00000 n \n0000000020 00000 n \ntrailer\n<< /Size 2 >>\n";
    assert!(XRef::parse(Stream::from_vec(bytes.to_vec()), 0, None).is_err());
}

#[test]
fn unknown_entry_kind_tolerated() {
    let bytes = b"xref\n0 2\n0000000000 65535 f \n0000000015 00000 q \ntrailer\n<< /Size 2 >>\n";
    let x = XRef::parse(Stream::from_vec(bytes.to_vec()), 0, None).expect("tolerated");
    assert_eq!(x.entry(1).unwrap().kind, EntryKind::Unknown);
}

#[test]
fn stray_close_paren_is_lexical_error() {
    let mut l = lexer_on(b") 5");
    assert!(l.get_obj().is_err());
    // the stray byte was consumed, so lexing can continue
    assert_eq!(l.get_obj().unwrap().get_integer(), Some(5));
}

#[test]
fn command_too_long_rejected() {
    let mut long = Vec::new();
    long.resize(200, b'q');
    let mut l = lexer_on(&long);
    assert!(l.get_obj().is_err());
}

#[test]
fn lone_close_angle_is_command_with_diagnostic() {
    let mut l = lexer_on(b"> 1");
    let before = l.diagnostics();
    match l.get_obj() {
        Ok(o) => assert!(o.is_cmd(">")),
        other => panic!("unexpected {:?}", other),
    }
    assert_eq!(l.diagnostics(), before + 1);
}
