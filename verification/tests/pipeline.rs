use fo_proto_format::errors::{BuildError, ProtoError};
use fo_proto_format::ini_to_toml::{is_numeric, split_until, translate};
use fo_proto_format::manifest::{is_valid_manifest_entry, manifest_entries};
use fo_proto_format::ranges::{banner, free_ranges, ranges_for, render_interval, Interval};
use fo_proto_format::records::{proto_from_ini, proto_from_toml, ProtoCritter, ProtoItem};
use fo_proto_format::registry::{build_btree, build_btree_per_file};
use fo_proto_format::scalar::{decode_value, i64_to_dec, parse_int, Scalar};
use fo_proto_format::MAX_PROTOTYPES;

fn tr(src: &str) -> String {
    String::from_utf8(translate(src.as_bytes(), false).unwrap()).unwrap()
}

#[test]
fn numeric_typing_rule() {
    assert!(is_numeric(b"0"));
    assert!(!is_numeric(b"007"));
    assert!(is_numeric(b"-12"));
    assert!(!is_numeric(b"12.5"));
    assert!(!is_numeric(b"12345678901234567890"));
    assert!(is_numeric(b"1234567890123456789"));
    assert!(!is_numeric(b""));
}

#[test]
fn translate_sections_and_values() {
    let out = tr("[Proto]\nProtoId = 7\nPicMap = art/items/a.frm\n");
    assert_eq!(out, "[[\"Proto\"]]\nProtoId=7\nPicMap=\"art/items/a.frm\"\n");
}

#[test]
fn translate_leading_zero_stays_string() {
    assert_eq!(tr("[S]\nCode = 007\n"), "[[\"S\"]]\nCode=\"007\"\n");
}

#[test]
fn translate_dot_keys_and_escapes() {
    let out = tr("[S]\nGrid.Type = 2\nPath = a\\b\n");
    assert_eq!(out, "[[\"S\"]]\nGrid_Type=2\nPath=\"a\\\\b\"\n");
}

#[test]
fn translate_comments_kept_on_request() {
    let src = "[S] # header\nA = 1 # one\n# only comment\n";
    assert_eq!(tr(src), "[[\"S\"]]\nA=1\n");
    let with = String::from_utf8(translate(src.as_bytes(), true).unwrap()).unwrap();
    assert_eq!(with, "[[\"S\"]] #header\nA=1 #one\n");
}

#[test]
fn translate_strips_byte_order_mark() {
    let mut src: Vec<u8> = vec![0xef, 0xbb, 0xbf];
    src.extend_from_slice(b"[S]\nA = 1\n");
    let out = translate(&src, false).unwrap();
    assert_eq!(out, b"[[\"S\"]]\nA=1\n");
}

#[test]
fn translate_malformed_section() {
    assert_eq!(
        translate(b"[S]\n[bad\n", false),
        Err(ProtoError::MalformedSection { line: 1 })
    );
    assert_eq!(
        translate(b"[]\n", false),
        Err(ProtoError::MalformedSection { line: 0 })
    );
}

#[test]
fn translate_missing_separator() {
    assert_eq!(
        translate(b"[S]\nnovalue\n", false),
        Err(ProtoError::MissingSeparator { line: 1 })
    );
}

#[test]
fn split_until_trims_around_delimiter() {
    let (key, val) = split_until(b"Key  = value ", b'=');
    assert_eq!(key, b"Key");
    assert_eq!(val.unwrap(), b"value ");
    let (all, none) = split_until(b"plain", b'=');
    assert_eq!(all, b"plain");
    assert!(none.is_none());
}

#[test]
fn scalar_value_round_trip() {
    for v in ["0", "-12", "945", "art/items/a.frm", "007", "", "a\\b"] {
        let enc = if is_numeric(v.as_bytes()) {
            v.as_bytes().to_vec()
        } else {
            let mut q = vec![b'"'];
            q.extend(v.bytes().flat_map(|b| {
                if b == b'\\' {
                    vec![b'\\', b'\\']
                } else {
                    vec![b]
                }
            }));
            q.push(b'"');
            q
        };
        let back = match decode_value(&enc).unwrap() {
            Scalar::Int(n) => i64_to_dec(n),
            Scalar::Str(s) => s,
        };
        assert_eq!(back, v.as_bytes(), "value {:?}", v);
    }
}

#[test]
fn document_value_round_trip() {
    let originals = ["0", "-12", "945", "art/items/a.frm", "007", "", "back\\slash"];
    let mut src = String::from("[Proto]\nProtoId = 1\nType = 1\nPicMap = pm\n");
    for (i, v) in originals.iter().enumerate() {
        src.push_str(&format!("Extra{} = {}\n", i, v));
    }
    let ps = proto_from_ini::<ProtoItem>(src.as_bytes()).unwrap();
    let extras = &ps.values[0].extra_fields;
    assert_eq!(extras.len(), originals.len());
    for (i, v) in originals.iter().enumerate() {
        let back = match &extras[i].1 {
            Scalar::Int(n) => i64_to_dec(*n),
            Scalar::Str(s) => s.clone(),
        };
        assert_eq!(back, v.as_bytes(), "value {:?}", v);
    }
}

#[test]
fn parse_int_rejects_non_canonical() {
    assert_eq!(parse_int(b"0"), Some(0));
    assert_eq!(parse_int(b"-12"), Some(-12));
    assert_eq!(parse_int(b"007"), None);
    assert_eq!(parse_int(b"-0"), Some(0));
    assert_eq!(parse_int(b""), None);
    assert_eq!(parse_int(b"-"), None);
    assert_eq!(parse_int(b"1-2"), None);
    assert_eq!(parse_int(b"9223372036854775807"), Some(i64::MAX));
    assert_eq!(parse_int(b"-9223372036854775808"), Some(i64::MIN));
    assert_eq!(parse_int(b"9223372036854775808"), None);
}

#[test]
fn decode_item_with_aliases() {
    let src = "[Proto]\nPid = 5\nType = 3\nPicMapName = art/a.frm\nMystery = 1\n";
    let ps = proto_from_ini::<ProtoItem>(src.as_bytes()).unwrap();
    assert_eq!(ps.values.len(), 1);
    let it = &ps.values[0];
    assert_eq!(it.proto_id, 5);
    assert_eq!(it.ty, 3);
    assert_eq!(it.pic_map, b"art/a.frm");
    assert_eq!(it.pic_inv, None);
    assert_eq!(it.extra_fields.len(), 1);
    assert_eq!(it.extra_fields[0].0, b"Mystery");
    assert_eq!(it.extra_fields[0].1, Scalar::Int(1));
}

#[test]
fn decode_alias_and_canonical_name_collide() {
    let src = "[Proto]\nProtoId = 5\nPid = 6\nType = 3\nPicMap = a\n";
    assert_eq!(
        proto_from_ini::<ProtoItem>(src.as_bytes()),
        Err(ProtoError::DuplicateField)
    );
}

#[test]
fn decode_repeated_key_collides() {
    let src = "[Proto]\nFlags = 1\nFlags = 2\nProtoId = 5\nType = 3\nPicMap = a\n";
    assert_eq!(
        proto_from_ini::<ProtoItem>(src.as_bytes()),
        Err(ProtoError::DuplicateField)
    );
}

#[test]
fn incomplete_record_rejected() {
    let src = "[Proto]\nType = 3\nPicMap = a\n";
    assert_eq!(
        proto_from_ini::<ProtoItem>(src.as_bytes()),
        Err(ProtoError::IncompleteRecord)
    );
    let zero = "[Proto]\nProtoId = 0\nType = 3\nPicMap = a\n";
    assert_eq!(
        proto_from_ini::<ProtoItem>(zero.as_bytes()),
        Err(ProtoError::IncompleteRecord)
    );
}

#[test]
fn decode_type_mismatch() {
    let src = "[Proto]\nProtoId = notanumber\nType = 3\nPicMap = a\n";
    assert_eq!(
        proto_from_ini::<ProtoItem>(src.as_bytes()),
        Err(ProtoError::DecodeMismatch)
    );
    let range = "[Proto]\nProtoId = 5\nType = 300\nPicMap = a\n";
    assert_eq!(
        proto_from_ini::<ProtoItem>(range.as_bytes()),
        Err(ProtoError::DecodeMismatch)
    );
    let missing_pic = "[Proto]\nProtoId = 5\nType = 3\n";
    assert_eq!(
        proto_from_ini::<ProtoItem>(missing_pic.as_bytes()),
        Err(ProtoError::DecodeMismatch)
    );
}

#[test]
fn decode_critter_ignores_undeclared_fields() {
    let src = "[Critter proto]\nProtoId = 9\nST_Strength = 5\n";
    let canon = translate(src.as_bytes(), false).unwrap();
    let ps = proto_from_toml::<ProtoCritter>(&canon).unwrap();
    assert_eq!(ps.values.len(), 1);
    assert_eq!(ps.values[0].proto_id, 9);
}

#[test]
fn decode_two_array_names_collide() {
    let canon = b"[[\"Proto\"]]\nProtoId=1\n[[\"Critter proto\"]]\nProtoId=2\n";
    assert_eq!(
        proto_from_toml::<ProtoCritter>(canon),
        Err(ProtoError::DuplicateField)
    );
}

#[test]
fn builds_registry_with_distinct_identifiers() {
    let a = b"[Proto]\nProtoId = 2\nType = 1\nPicMap = a\n".to_vec();
    let b = b"[Proto]\nProtoId = 1\nType = 1\nPicMap = b\n[Proto]\nProtoId = 3\nType = 2\nPicMap = c\n"
        .to_vec();
    let reg = build_btree::<ProtoItem>(&vec![a, b]).unwrap();
    assert_eq!(reg.len(), 3);
    assert_eq!(reg.keys, vec![1, 2, 3]);
    assert_eq!(reg.get(2).unwrap().pic_map, b"a");
    assert_eq!(reg.get(3).unwrap().pic_map, b"c");
    assert!(reg.get(4).is_none());
}

#[test]
fn identifier_collision_across_files() {
    let a = b"[Proto]\nProtoId = 5\nType = 1\nPicMap = a\n".to_vec();
    let b = b"[Proto]\nProtoId = 5\nType = 2\nPicMap = b\n".to_vec();
    match build_btree::<ProtoItem>(&vec![a, b]) {
        Ok(_) => panic!("collision accepted"),
        Err(be) => assert_eq!(
            be,
            BuildError {
                file: 1,
                err: ProtoError::IdentifierCollision { pid: 5 }
            }
        ),
    }
}

#[test]
fn per_file_registries_do_not_collide_across_files() {
    let a = b"[Proto]\nProtoId = 5\nType = 1\nPicMap = a\n".to_vec();
    let b = b"[Proto]\nProtoId = 5\nType = 2\nPicMap = b\n".to_vec();
    let regs = build_btree_per_file::<ProtoItem>(&vec![a, b]).unwrap();
    assert_eq!(regs.len(), 2);
    assert_eq!(regs[0].keys, vec![5]);
    assert_eq!(regs[1].keys, vec![5]);
}

#[test]
fn free_ranges_examples() {
    let ivs = free_ranges(&vec![1, 2, 5, 6, 10], 12);
    assert_eq!(
        ivs,
        vec![
            Interval { from: 3, to: 4 },
            Interval { from: 7, to: 9 },
            Interval { from: 11, to: 11 },
        ]
    );
    assert_eq!(free_ranges(&vec![], 5), vec![Interval { from: 1, to: 4 }]);
    assert_eq!(free_ranges(&vec![1, 2, 3, 4], 5), vec![]);
}

#[test]
fn interval_rendering() {
    assert_eq!(render_interval(Interval { from: 7, to: 7 }), b"7");
    assert_eq!(render_interval(Interval { from: 7, to: 8 }), b"7, 8");
    assert_eq!(
        render_interval(Interval { from: 7, to: 9 }),
        b"7-9 (3 ids)"
    );
}

#[test]
fn ranges_report_lines() {
    let out = ranges_for(&vec![1, 2, 5, 6, 10], 12);
    assert_eq!(out, b"3, 4\n7-9 (3 ids)\n11\n");
}

#[test]
fn banner_block() {
    let out = banner(b"Free identifiers for items");
    let expect =
        "======================\nFree identifiers for items\n======================\n\n";
    assert_eq!(out, expect.as_bytes());
}

#[test]
fn manifest_entries_skip_blanks() {
    let entries = manifest_entries(b"  a.fopro \n\n\t\nsub/b.fopro\n");
    assert_eq!(entries, vec![b"a.fopro".to_vec(), b"sub/b.fopro".to_vec()]);
}

#[test]
fn manifest_entry_extension_rule() {
    assert!(is_valid_manifest_entry(b"items/generic.fopro"));
    assert!(!is_valid_manifest_entry(b"items/generic.txt"));
    assert!(!is_valid_manifest_entry(b".fopro"));
    assert!(!is_valid_manifest_entry(b"dir/.fopro"));
    assert!(is_valid_manifest_entry(b"a.fopro"));
}

#[test]
fn bound_of_identifier_space() {
    assert_eq!(MAX_PROTOTYPES, 30000);
    let ivs = free_ranges(&vec![1], MAX_PROTOTYPES);
    assert_eq!(ivs, vec![Interval { from: 2, to: 29999 }]);
}
