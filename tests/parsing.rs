use massif_collect::massif::{
    massif_header_attribute, massif_snapshot_attribute, parse_massif, ParseError, ParseErrorKind,
};
use massif_collect::parsing::{
    decode_hex_address, massif_call, massif_ignored_call, massif_sample, Call, HexDecodeError,
    LineError, Sample,
};

fn threshold_value(t: &str) -> f32 {
    t.parse::<f32>().unwrap()
}

#[test]
fn it_parses_ignored_calls() {
    let (count, threshold) =
        massif_ignored_call("in 1 place, below massif's threshold (0.01%)").unwrap();
    assert_eq!((count, threshold_value(&threshold)), (1, 0.01));
}

#[test]
fn it_parses_calls() {
    assert_eq!(
        massif_call("(heap allocation functions) malloc/new/new[], --alloc-fns, etc.\n"),
        Some(Call::Sampled(
            None,
            "(heap allocation functions) malloc/new/new[], --alloc-fns, etc.".to_string()
        ))
    );
    assert_eq!(
        massif_call("0x4E23FC67: std::string::_Rep::_S_create(unsigned long, unsigned long, std::allocator<char> const&) (in libstdc++.so)\n"),
        Some(Call::Sampled(
            Some(0x4E23FC67),
            "std::string::_Rep::_S_create(unsigned long, unsigned long, std::allocator<char> const&) (in libstdc++.so)".to_string()
        ))
    );
    let ignored = |s: &str| match massif_call(s) {
        Some(Call::Ignored(n, t)) => Some((n, threshold_value(&t))),
        _ => None,
    };
    assert_eq!(ignored("in 1 place, below massif's threshold (0.01%)"), Some((1, 0.01)));
    assert_eq!(ignored("in 5 places, below massif's threshold (0.01%)"), Some((5, 0.01)));
    assert_eq!(
        ignored("in 9570 places, all below massif's threshold (0.01%)\n"),
        Some((9570, 0.01))
    );
}

#[test]
fn it_parses_samples() {
    assert_eq!(
        massif_sample("n184: 94985897 (heap allocation functions) malloc/new/new[], --alloc-fns, etc.\n"),
        Ok(Sample {
            nb_callers: 184,
            bytes: 94985897,
            call: Call::Sampled(
                None,
                "(heap allocation functions) malloc/new/new[], --alloc-fns, etc.".to_string()
            ),
        })
    );
    assert_eq!(
        massif_sample("n4: 13847645 0x4E23FC67: std::string::_Rep::_S_create(unsigned long, unsigned long, std::allocator<char> const&) (in libstdc++.so)\n"),
        Ok(Sample {
            nb_callers: 4,
            bytes: 13847645,
            call: Call::Sampled(
                Some(0x4E23FC67),
                "std::string::_Rep::_S_create(unsigned long, unsigned long, std::allocator<char> const&) (in libstdc++.so)".to_string()
            ),
        })
    );
    let s = massif_sample("n0: 109 in 1 place, below massif's threshold (0.01%)\n").unwrap();
    assert_eq!((s.nb_callers, s.bytes), (0, 109));
    match s.call {
        Call::Ignored(n, t) => assert_eq!((n, threshold_value(&t)), (1, 0.01)),
        other => panic!("unexpected {:?}", other),
    }
    let s = massif_sample("n0: 1355955 in 9570 places, all below massif's threshold (0.01%)\n")
        .unwrap();
    assert_eq!((s.nb_callers, s.bytes), (0, 1355955));
    match s.call {
        Call::Ignored(n, t) => assert_eq!((n, threshold_value(&t)), (9570, 0.01)),
        other => panic!("unexpected {:?}", other),
    }
}

#[test]
fn it_parses_snapshot_attributes() {
    assert_eq!(
        massif_snapshot_attribute("time=0\n"),
        Some(("time".to_string(), "0".to_string()))
    );
    assert_eq!(
        massif_snapshot_attribute("mem_heap_extra_B=0\n"),
        Some(("mem_heap_extra_B".to_string(), "0".to_string()))
    );
    assert_eq!(
        massif_snapshot_attribute("mem_stacks_B=0\n"),
        Some(("mem_stacks_B".to_string(), "0".to_string()))
    );
}

fn pairs(list: &[(&str, &str)]) -> Vec<(String, String)> {
    list.iter().map(|(k, v)| (k.to_string(), v.to_string())).collect()
}

#[test]
fn it_parses_many_snapshot_attributes() {
    let attributes = "\
        #-----------\n\
        snapshot=0\n\
        #-----------\n\
        time=0\n\
        mem_heap_B=0\n\
        mem_heap_extra_B=0\n\
        mem_stacks_B=0\n\
        heap_tree=detailed\n\
        ";
    let m = parse_massif(attributes).unwrap();
    assert_eq!(
        m.snapshots[0].attributes,
        pairs(&[
            ("time", "0"),
            ("mem_heap_B", "0"),
            ("mem_heap_extra_B", "0"),
            ("mem_stacks_B", "0"),
            ("heap_tree", "detailed"),
        ])
    );
}

#[test]
fn it_parses_snapshots() {
    let snapshot = "\
        #-----------\n\
        snapshot=0\n\
        #-----------\n\
        time=0\n\
        mem_heap_B=0\n\
        mem_heap_extra_B=0\n\
        mem_stacks_B=0\n\
        heap_tree=detailed\n\
        n0: 0 (heap allocation functions) malloc/new/new[], --alloc-fns, etc.\n\
        ";
    let m = parse_massif(snapshot).unwrap();
    assert_eq!(m.snapshots.len(), 1);
    let s = &m.snapshots[0];
    assert_eq!(s.id, 0);
    assert_eq!(
        s.attributes,
        pairs(&[
            ("time", "0"),
            ("mem_heap_B", "0"),
            ("mem_heap_extra_B", "0"),
            ("mem_stacks_B", "0"),
            ("heap_tree", "detailed"),
        ])
    );
    assert_eq!(
        s.samples,
        vec![Sample {
            nb_callers: 0,
            bytes: 0,
            call: Call::Sampled(
                None,
                "(heap allocation functions) malloc/new/new[], --alloc-fns, etc.".to_string()
            ),
        }]
    );
}

#[test]
fn it_parses_header_attributes() {
    let header = "\
                 desc: -x --option=42 arg1 arg2\n\
                 cmd: the command-line\n\
                 time_unit: ms\n\
                 ";
    let m = parse_massif(header).unwrap();
    assert_eq!(
        m.header,
        pairs(&[
            ("desc", "-x --option=42 arg1 arg2"),
            ("cmd", "the command-line"),
            ("time_unit", "ms"),
        ])
    );
    assert_eq!(
        massif_header_attribute("cmd: the command-line\n"),
        Some(("cmd".to_string(), "the command-line".to_string()))
    );
}

#[test]
fn it_parses_the_full_output() {
    let out = "\
                 desc: -x --option=42 arg1 arg2\n\
                 cmd: the command-line\n\
                 time_unit: ms\n\
                 #-----------\n\
                 snapshot=0\n\
                 #-----------\n\
                 time=0\n\
                 heap_tree=detailed\n\
                 n0: 0 (heap allocation functions) malloc/new/new[], --alloc-fns, etc.\n\
                 #-----------\n\
                 snapshot=1\n\
                 #-----------\n\
                 time=0\n\
                 heap_tree=detailed\n\
                 n1: 21 (heap allocation functions) malloc/new/new[], --alloc-fns, etc.\n\
                  n0: 21 0x4E23FC67: allocate_some_memory() (in liberty.so)\n\
                 ";
    let m = parse_massif(out).unwrap();
    assert_eq!(
        m.header,
        pairs(&[
            ("desc", "-x --option=42 arg1 arg2"),
            ("cmd", "the command-line"),
            ("time_unit", "ms"),
        ])
    );
    assert_eq!(m.snapshots.len(), 2);
    let attributes = pairs(&[("time", "0"), ("heap_tree", "detailed")]);
    assert_eq!(m.snapshots[0].id, 0);
    assert_eq!(m.snapshots[0].attributes, attributes);
    assert_eq!(
        m.snapshots[0].samples,
        vec![Sample {
            nb_callers: 0,
            bytes: 0,
            call: Call::Sampled(
                None,
                "(heap allocation functions) malloc/new/new[], --alloc-fns, etc.".to_string()
            ),
        }]
    );
    assert_eq!(m.snapshots[1].id, 1);
    assert_eq!(m.snapshots[1].attributes, attributes);
    assert_eq!(
        m.snapshots[1].samples,
        vec![
            Sample {
                nb_callers: 1,
                bytes: 21,
                call: Call::Sampled(
                    None,
                    "(heap allocation functions) malloc/new/new[], --alloc-fns, etc.".to_string()
                ),
            },
            Sample {
                nb_callers: 0,
                bytes: 21,
                call: Call::Sampled(
                    Some(0x4E23FC67),
                    "allocate_some_memory() (in liberty.so)".to_string()
                ),
            },
        ]
    );
}

#[test]
fn it_decodes_hex_addresses() {
    assert_eq!(decode_hex_address("12"), Ok(0x12));
    assert_eq!(decode_hex_address("1234"), Ok(0x1234));
    assert_eq!(decode_hex_address("1"), Ok(0x1));
    assert_eq!(decode_hex_address("123"), Ok(0x123));
    assert_eq!(decode_hex_address("15266383"), Ok(0x15266383));
}

#[test]
fn hex_decoding_errors() {
    assert_eq!(
        decode_hex_address("12345678901234567"),
        Err(HexDecodeError::InvalidStringLength)
    );
    assert_eq!(decode_hex_address("ffffffffffffffff"), Ok(u64::MAX));
    assert_eq!(
        decode_hex_address("1g2"),
        Err(HexDecodeError::InvalidHexCharacter { c: 'g', index: 1 })
    );
    assert_eq!(decode_hex_address("AbC"), Ok(0xabc));
}

#[test]
fn sample_line_errors() {
    assert_eq!(massif_sample("x0: 1 foo\n"), Err(LineError::Malformed));
    assert_eq!(massif_sample("n0: 1\n"), Err(LineError::Malformed));
    assert_eq!(
        massif_sample("n0: 99999999999999999999999 foo\n"),
        Err(LineError::NumberTooLarge)
    );
    assert_eq!(massif_call("in 99999999999999999999999 places, below massif's threshold (0.01%)"), None);
}

#[test]
fn address_prefix_needs_a_colon() {
    assert_eq!(
        massif_call("0x10 f"),
        Some(Call::Sampled(None, "0x10 f".to_string()))
    );
    assert_eq!(
        massif_call("0x10:   f"),
        Some(Call::Sampled(Some(0x10), "f".to_string()))
    );
    assert_eq!(
        massif_call("in 1 place, below massif's threshold (0.01%) and more"),
        Some(Call::Sampled(
            None,
            "in 1 place, below massif's threshold (0.01%) and more".to_string()
        ))
    );
}

#[test]
fn file_errors_carry_line_numbers() {
    assert_eq!(
        parse_massif("desc: x\nbogus\n").err(),
        Some(ParseError { line: 2, kind: ParseErrorKind::Malformed })
    );
    assert_eq!(
        parse_massif("desc: x\n#---\nsnapshot=0\n#---\nn0: 1 f").err(),
        Some(ParseError { line: 5, kind: ParseErrorKind::MissingLineEnding })
    );
    assert_eq!(
        parse_massif("#---\nsnapshot=0\n").err(),
        Some(ParseError { line: 2, kind: ParseErrorKind::Truncated })
    );
    assert_eq!(
        parse_massif("#---\nsnapshot=99999999999999999999999\n").err(),
        Some(ParseError { line: 2, kind: ParseErrorKind::NumberTooLarge })
    );
    assert_eq!(
        parse_massif("#---\nsnapshot=0\n#---\nn0: 1 f\nt=0\n").err(),
        Some(ParseError { line: 5, kind: ParseErrorKind::Malformed })
    );
    assert!(parse_massif("a: b\r\n#---\r\nsnapshot=3\r\n#---\r\nn0: 5 f\r\n").is_ok());
}

#[test]
fn attributes_read_as_a_map() {
    let m = parse_massif("#---\nsnapshot=0\n#---\ntime=0\nheap=1\ntime=7\n").unwrap();
    let a = &m.snapshots[0].attributes;
    assert_eq!(massif_collect::massif::attribute(a, &"time".to_string()), Some(&"7".to_string()));
    assert_eq!(massif_collect::massif::attribute(a, &"heap".to_string()), Some(&"1".to_string()));
    assert_eq!(massif_collect::massif::attribute(a, &"none".to_string()), None);
}
