use ksymtypes::sym::{pretty_format_type, Token};

#[test]
fn format_typedef() {
    // Check pretty-formatting of a typedef declaration.
    let pretty = pretty_format_type(&vec![
        Token::new_atom("typedef"),
        Token::new_atom("unsigned"),
        Token::new_atom("long"),
        Token::new_atom("long"),
        Token::new_atom("u64"),
    ]);
    assert_eq!(
        pretty,
        vec![
            "typedef unsigned long long u64".to_string(), //
        ]
    );
}

#[test]
fn format_enum() {
    // Check pretty-formatting of an enum declaration.
    let pretty = pretty_format_type(&vec![
        Token::new_atom("enum"),
        Token::new_atom("test"),
        Token::new_atom("{"),
        Token::new_atom("VALUE1"),
        Token::new_atom(","),
        Token::new_atom("VALUE2"),
        Token::new_atom(","),
        Token::new_atom("VALUE3"),
        Token::new_atom("}"),
    ]);
    assert_eq!(
        pretty,
        vec![
            "enum test {".to_string(),
            "\tVALUE1,".to_string(),
            "\tVALUE2,".to_string(),
            "\tVALUE3".to_string(),
            "}".to_string(), //
        ]
    );
}

#[test]
fn format_struct() {
    // Check pretty-formatting of a struct declaration.
    let pretty = pretty_format_type(&vec![
        Token::new_atom("struct"),
        Token::new_atom("test"),
        Token::new_atom("{"),
        Token::new_atom("int"),
        Token::new_atom("ivalue"),
        Token::new_atom(";"),
        Token::new_atom("long"),
        Token::new_atom("lvalue"),
        Token::new_atom(";"),
        Token::new_atom("}"),
    ]);
    assert_eq!(
        pretty,
        vec![
            "struct test {".to_string(),
            "\tint ivalue;".to_string(),
            "\tlong lvalue;".to_string(),
            "}".to_string(), //
        ]
    );
}

#[test]
fn format_union() {
    // Check pretty-formatting of a union declaration.
    let pretty = pretty_format_type(&vec![
        Token::new_atom("union"),
        Token::new_atom("test"),
        Token::new_atom("{"),
        Token::new_atom("int"),
        Token::new_atom("ivalue"),
        Token::new_atom(";"),
        Token::new_atom("long"),
        Token::new_atom("lvalue"),
        Token::new_atom(";"),
        Token::new_atom("}"),
    ]);
    assert_eq!(
        pretty,
        vec![
            "union test {".to_string(),
            "\tint ivalue;".to_string(),
            "\tlong lvalue;".to_string(),
            "}".to_string(), //
        ]
    );
}

#[test]
fn format_enum_constant() {
    // Check pretty-formatting of an enum constant declaration.
    let pretty = pretty_format_type(&vec![Token::new_atom("7")]);
    assert_eq!(
        pretty,
        vec![
            "7".to_string(), //
        ]
    );
}

#[test]
fn format_nested() {
    // Check pretty-formatting of a nested declaration.
    let pretty = pretty_format_type(&vec![
        Token::new_atom("union"),
        Token::new_atom("nested"),
        Token::new_atom("{"),
        Token::new_atom("struct"),
        Token::new_atom("{"),
        Token::new_atom("int"),
        Token::new_atom("ivalue1"),
        Token::new_atom(";"),
        Token::new_atom("int"),
        Token::new_atom("ivalue2"),
        Token::new_atom(";"),
        Token::new_atom("}"),
        Token::new_atom(";"),
        Token::new_atom("long"),
        Token::new_atom("lvalue"),
        Token::new_atom(";"),
        Token::new_atom("}"),
    ]);
    assert_eq!(
        pretty,
        vec![
            "union nested {".to_string(),
            "\tstruct {".to_string(),
            "\t\tint ivalue1;".to_string(),
            "\t\tint ivalue2;".to_string(),
            "\t};".to_string(),
            "\tlong lvalue;".to_string(),
            "}".to_string(), //
        ]
    );
}

#[test]
fn format_imbalanced() {
    // Check pretty-formatting of a declaration with wrongly balanced brackets.
    let pretty = pretty_format_type(&vec![
        Token::new_atom("struct"),
        Token::new_atom("imbalanced"),
        Token::new_atom("{"),
        Token::new_atom("{"),
        Token::new_atom("}"),
        Token::new_atom("}"),
        Token::new_atom("}"),
        Token::new_atom(";"),
        Token::new_atom("{"),
        Token::new_atom("{"),
    ]);
    assert_eq!(
        pretty,
        vec![
            "struct imbalanced {".to_string(),
            "\t{".to_string(),
            "\t}".to_string(),
            "}".to_string(),
            "};".to_string(),
            "{".to_string(),
            "\t{".to_string(), //
        ]
    );
}

#[test]
fn format_typeref() {
    // Check pretty-formatting of a declaration with a reference to another type.
    let pretty = pretty_format_type(&vec![
        Token::new_atom("struct"),
        Token::new_atom("typeref"),
        Token::new_atom("{"),
        Token::new_typeref("s#other"),
        Token::new_atom("other"),
        Token::new_atom(";"),
        Token::new_atom("}"),
    ]);
    assert_eq!(
        pretty,
        vec![
            "struct typeref {".to_string(),
            "\ts#other other;".to_string(),
            "}".to_string(), //
        ]
    );
}
