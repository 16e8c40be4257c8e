use ksymtypes::sym::SymCorpus;

#[test]
fn read_empty_record() {
    // Check that empty records are rejected when reading a file.
    let input = "s#test struct test { }\n\ns#test2 struct test2 { }\n";
    let mut syms = SymCorpus::new();
    let result = syms.load_buffer("file.symtypes", input.as_bytes());
    match result {
        Err(ksymtypes::Error::Parse(actual_desc)) => {
            assert_eq!(actual_desc, "file.symtypes:2: Expected a record name")
        }
        _ => panic!("assertion failed: the result is not a parse error"),
    }
}

#[test]
fn read_duplicate_type_record() {
    // Check that type records with duplicate names are rejected when reading a file.
    let input = "s#test struct test { int a ; }\ns#test struct test { int b ; }\n";
    let mut syms = SymCorpus::new();
    let result = syms.load_buffer("file.symtypes", input.as_bytes());
    match result {
        Err(ksymtypes::Error::Parse(actual_desc)) => {
            assert_eq!(actual_desc, "file.symtypes:2: Duplicate record 's#test'")
        }
        _ => panic!("assertion failed: the result is not a parse error"),
    }
}

#[test]
fn read_duplicate_file_record() {
    // Check that F# records with duplicate names are rejected when reading a consolidated file.
    let input = "bar int bar ( )\nbaz int baz ( )\nF#test.symtypes bar\nF#test.symtypes baz\n";
    let mut syms = SymCorpus::new();
    let result = syms.load_buffer("file.symtypes", input.as_bytes());
    match result {
        Err(ksymtypes::Error::Parse(actual_desc)) => {
            assert_eq!(actual_desc, "file.symtypes:4: Duplicate record 'F#test.symtypes'")
        }
        _ => panic!("assertion failed: the result is not a parse error"),
    }
}

#[test]
fn read_invalid_file_record_ref() {
    // Check that an F# record referencing a type in form '<base_name>' is rejected if the type is
    // not known.
    let input = "F#test.symtypes bar\n";
    let mut syms = SymCorpus::new();
    let result = syms.load_buffer("file.symtypes", input.as_bytes());
    match result {
        Err(ksymtypes::Error::Parse(actual_desc)) => {
            assert_eq!(actual_desc, "file.symtypes:1: Type bar is not known")
        }
        _ => panic!("assertion failed: the result is not a parse error"),
    }
}

#[test]
fn read_invalid_file_record_ref2() {
    // Check that an F# record referencing a type in form '<base_name>@<variant_idx>' is rejected if
    // the base name is not known.
    let input = "F#test.symtypes bar@0\n";
    let mut syms = SymCorpus::new();
    let result = syms.load_buffer("file.symtypes", input.as_bytes());
    match result {
        Err(ksymtypes::Error::Parse(actual_desc)) => {
            assert_eq!(actual_desc, "file.symtypes:1: Type bar@0 is not known")
        }
        _ => panic!("assertion failed: the result is not a parse error"),
    }
}

#[test]
fn read_invalid_file_record_ref3() {
    // Check that an F# record referencing a type in form '<base_name>@<variant_idx>' is rejected if
    // the variant index is not known.
    let input = "bar@0 int bar ( )\nF#test.symtypes bar@0\nF#test2.symtypes bar@1\n";
    let mut syms = SymCorpus::new();
    let result = syms.load_buffer("file.symtypes", input.as_bytes());
    match result {
        Err(ksymtypes::Error::Parse(actual_desc)) => {
            assert_eq!(actual_desc, "file.symtypes:3: Type bar@1 is not known")
        }
        _ => panic!("assertion failed: the result is not a parse error"),
    }
}

#[test]
fn read_write_basic() {
    // Check reading of a single file and writing the consolidated output.
    let mut syms = SymCorpus::new();
    let _ = syms.load_buffer(
        "test.symtypes",
        "s#foo struct foo { int a ; }\nbar int bar ( s#foo )\n"
        .as_bytes(),
    );
    let mut out = Vec::new();
    let _ = syms.write_consolidated(&mut out);
    assert_eq!(
        String::from_utf8(out).unwrap(),
        "s#foo struct foo { int a ; }\nbar int bar ( s#foo )\nF#test.symtypes bar\n"
    );
}

#[test]
fn read_write_shared_struct() {
    // Check that a structure declaration shared by two files appears only once in the consolidated
    // output.
    let mut syms = SymCorpus::new();
    let _ = syms.load_buffer(
        "test.symtypes",
        "s#foo struct foo { int a ; }\nbar int bar ( s#foo )\n"
        .as_bytes(),
    );
    let _ = syms.load_buffer(
        "test2.symtypes",
        "s#foo struct foo { int a ; }\nbaz int baz ( s#foo )\n"
        .as_bytes(),
    );
    let mut out = Vec::new();
    let _ = syms.write_consolidated(&mut out);
    assert_eq!(
        String::from_utf8(out).unwrap(),
        "s#foo struct foo { int a ; }\nbar int bar ( s#foo )\nbaz int baz ( s#foo )\nF#test.symtypes bar\nF#test2.symtypes baz\n"
    );
}

#[test]
fn read_write_differing_struct() {
    // Check that a structure declaration different in two files appears in all variants in the
    // consolidated output and they are correctly referenced by the F# entries.
    let mut syms = SymCorpus::new();
    let _ = syms.load_buffer(
        "test.symtypes",
        "s#foo struct foo { int a ; }\nbar int bar ( s#foo )\n"
        .as_bytes(),
    );
    let _ = syms.load_buffer(
        "test2.symtypes",
        "s#foo struct foo { UNKNOWN }\nbaz int baz ( s#foo )\n"
        .as_bytes(),
    );
    let mut out = Vec::new();
    let _ = syms.write_consolidated(&mut out);
    assert_eq!(
        String::from_utf8(out).unwrap(),
        "s#foo@0 struct foo { int a ; }\ns#foo@1 struct foo { UNKNOWN }\nbar int bar ( s#foo )\nbaz int baz ( s#foo )\nF#test.symtypes s#foo@0 bar\nF#test2.symtypes s#foo@1 baz\n"
    );
}

#[test]
fn read_write_consolidated_round_trip() {
    // Check that loading a consolidated output back and writing it again
    // reproduces the same bytes.
    let mut syms = SymCorpus::new();
    let _ = syms.load_buffer(
        "test.symtypes",
        "s#foo struct foo { int a ; }\nbar int bar ( s#foo )\n"
        .as_bytes(),
    );
    let _ = syms.load_buffer(
        "test2.symtypes",
        "s#foo struct foo { int a ; }\nbaz int baz ( s#foo )\n"
        .as_bytes(),
    );
    let mut out = Vec::new();
    let _ = syms.write_consolidated(&mut out);

    let mut again = SymCorpus::new();
    let result = again.load_buffer("consolidated.symtypes", &out);
    assert!(result.is_ok());
    let mut out2 = Vec::new();
    let _ = again.write_consolidated(&mut out2);
    assert_eq!(out, out2);
}

#[test]
fn read_variant_suffix_in_single_file() {
    // Check that a variant suffix is rejected in a non-consolidated input.
    let input = "s#foo@0 struct foo { int a ; }\n";
    let mut syms = SymCorpus::new();
    let result = syms.load_buffer("file.symtypes", input.as_bytes());
    match result {
        Err(ksymtypes::Error::Parse(actual_desc)) => {
            assert_eq!(
                actual_desc,
                "file.symtypes:1: Unexpected variant suffix in record 's#foo@0'"
            )
        }
        _ => panic!("assertion failed: the result is not a parse error"),
    }
}

#[test]
fn read_implicit_multiple_variants() {
    // Check that an implicitly referenced type with several variants is rejected.
    let input = "s#foo@0 struct foo { int a ; }\ns#foo@1 struct foo { UNKNOWN }\nbar int bar ( s#foo )\nF#test.symtypes bar\n";
    let mut syms = SymCorpus::new();
    let result = syms.load_buffer("file.symtypes", input.as_bytes());
    match result {
        Err(ksymtypes::Error::Parse(actual_desc)) => {
            assert_eq!(
                actual_desc,
                "file.symtypes:4: Type s#foo is implicitly referenced but has multiple variants"
            )
        }
        _ => panic!("assertion failed: the result is not a parse error"),
    }
}

#[test]
fn read_invalid_utf8() {
    // Check that undecodable bytes are reported as an I/O failure.
    let input: Vec<u8> = vec![0xff, 0xfe, 0x20];
    let mut syms = SymCorpus::new();
    let result = syms.load_buffer("file.symtypes", &input);
    match result {
        Err(ksymtypes::Error::IO { desc, .. }) => {
            assert_eq!(desc, "Failed to read data from file 'file.symtypes'")
        }
        _ => panic!("assertion failed: the result is not an I/O error"),
    }
}

#[test]
fn read_blank_lines_only() {
    // A record line must carry a name even when the stream is otherwise empty.
    let mut syms = SymCorpus::new();
    let result = syms.load_buffer("file.symtypes", "\n".as_bytes());
    match result {
        Err(ksymtypes::Error::Parse(actual_desc)) => {
            assert_eq!(actual_desc, "file.symtypes:1: Expected a record name")
        }
        _ => panic!("assertion failed: the result is not a parse error"),
    }
}

#[test]
fn read_error_leaves_corpus_unchanged() {
    // A failed load leaves the corpus exactly as it was.
    let mut syms = SymCorpus::new();
    let _ = syms.load_buffer(
        "test.symtypes",
        "s#foo struct foo { int a ; }\nbar int bar ( s#foo )\n"
        .as_bytes(),
    );
    let mut before = Vec::new();
    let _ = syms.write_consolidated(&mut before);
    let result = syms.load_buffer("bad.symtypes", "s#x s ;\n\n".as_bytes());
    assert!(result.is_err());
    let mut after = Vec::new();
    let _ = syms.write_consolidated(&mut after);
    assert_eq!(before, after);
}

#[test]
fn check_invariants_after_load() {
    // A loaded self-contained corpus satisfies the checked invariants; a
    // dangling type reference in a single-file input breaks closure.
    let mut syms = SymCorpus::new();
    let _ = syms.load_buffer(
        "test.symtypes",
        "s#foo struct foo { int a ; }\nbar int bar ( s#foo )\n".as_bytes(),
    );
    assert!(syms.check_invariants());

    let mut dangling = SymCorpus::new();
    let _ = dangling.load_buffer(
        "test.symtypes",
        "bar int bar ( s#missing )\n".as_bytes(),
    );
    assert!(!dangling.check_invariants());
}

#[test]
fn read_write_empty_input() {
    // An empty stream loads as an empty file record and writes one F# line.
    let mut syms = SymCorpus::new();
    let result = syms.load_buffer("test.symtypes", "".as_bytes());
    assert!(result.is_ok());
    let mut out = Vec::new();
    let _ = syms.write_consolidated(&mut out);
    assert_eq!(String::from_utf8(out).unwrap(), "F#test.symtypes\n");
}

#[test]
fn read_opaque_variant_tags() {
    // Variant tags of a consolidated input are opaque names, not indices.
    let input = "s#foo@left struct foo { int a ; }\ns#foo@right struct foo { UNKNOWN }\nbar int bar ( s#foo )\nF#a.symtypes s#foo@left bar\nF#b.symtypes s#foo@right bar\n";
    let mut syms = SymCorpus::new();
    let result = syms.load_buffer("file.symtypes", input.as_bytes());
    assert!(result.is_ok());
    let mut out = Vec::new();
    let _ = syms.write_consolidated(&mut out);
    assert_eq!(
        String::from_utf8(out).unwrap(),
        "s#foo@0 struct foo { int a ; }\ns#foo@1 struct foo { UNKNOWN }\nbar int bar ( s#foo )\nF#a.symtypes s#foo@0 bar\nF#b.symtypes s#foo@1 bar\n"
    );
}

#[test]
fn read_error_line_number_with_two_digits() {
    // Line numbers in parse errors follow the original stream.
    let mut input = String::new();
    for i in 0..11 {
        input.push_str(&format!("e{} int e{} ( )\n", i, i));
    }
    input.push_str("e0 int e0 ( )\n");
    let mut syms = SymCorpus::new();
    let result = syms.load_buffer("file.symtypes", input.as_bytes());
    match result {
        Err(ksymtypes::Error::Parse(actual_desc)) => {
            assert_eq!(actual_desc, "file.symtypes:12: Duplicate record 'e0'")
        }
        _ => panic!("assertion failed: the result is not a parse error"),
    }
}
