use cipherlang::compile::{
    compile, consolidate, convert_to_method, create_header, generate_const, get_special_var_num,
    is_valid_special_var, lex_segment, locate_vars, organize_tokens, resolve_references,
    tokenize, tokenize_line,
};
use cipherlang::interpret::{apply_operation, get_const, interpret, Dictionary};
use cipherlang::transform::external_transform;
use cipherlang::{
    index_of_vec_val, parse, value_in_str_map, BinaryInstruction, CError, ErrorKind, PIType,
    ProtoInstruction, TType, Token,
};

fn s(x: &str) -> String {
    x.to_string()
}

fn run(script: &str, input: &str, args: &[&str]) -> Result<String, CError> {
    let method = convert_to_method(&s(script))?;
    let args: Vec<String> = args.iter().map(|a| s(a)).collect();
    interpret(&method, &s(input), &args, 0, &Dictionary::new())
}

#[test]
fn greeting_constant_is_written_out() {
    let out = run("%argmin=0,argmax=255\nconst greet \"hi\"\nwrite greet to _stdout", "anything", &[]).unwrap();
    assert_eq!(out, "hi\n");
    let out = run("%argmin=0,argmax=255\nconst greet \"hi\"\nwrite greet to _stdout", "", &["a", "b"]).unwrap();
    assert_eq!(out, "hi\n");
}

#[test]
fn argument_is_upper_cased() {
    let script = "%argmin=1,argmax=1\nvar x \nload x from _0 \napply upper<> to x \nwrite x to _stdout";
    assert_eq!(run(script, "", &["ab"]).unwrap(), "AB\n");
}

#[test]
fn constant_round_trips_through_method() {
    let script = "%argmin=0,argmax=0\nconst c \"hello, world  ok\"\nwrite c to _stdout";
    assert_eq!(run(script, "", &[]).unwrap(), "hello, world  ok\n");
    let script = "%argmin=0,argmax=0\nconst c \"caf\u{e9} \u{263a}\"\nvar v\nload v from c\nwrite v to _stdout";
    assert_eq!(run(script, "", &[]).unwrap(), "caf\u{e9} \u{263a}\n");
}

#[test]
fn chain_folds_from_the_right() {
    let script = "%argmin=0,argmax=0\nconst a \"x\"\nconst b \"y\"\nconst c \"2\"\nvar r\nload r from a $cat b $repeat c\nwrite r to _stdout";
    assert_eq!(run(script, "", &[]).unwrap(), "xyy\n");
    let script = "%argmin=0,argmax=0\nconst a \"x\"\nconst b \"y\"\nconst c \"2\"\nwrite a $cat b $repeat c to _stdout";
    assert_eq!(run(script, "", &[]).unwrap(), "xyy\n");
}

#[test]
fn lowering_of_a_chain_is_right_associative() {
    let mut toks = tokenize_line(&s("load r from a $cat b $repeat c"), 1).unwrap();
    let sts = organize_tokens(&mut toks).unwrap();
    let p = consolidate(&sts).unwrap();
    assert_eq!(p.len(), 3);
    assert_eq!(p[0].pitype, PIType::Operation);
    assert_eq!((p[0].source.as_str(), p[0].second_source.as_str(), p[0].value.as_str()), ("b", "c", "repeat"));
    assert_eq!((p[1].source.as_str(), p[1].second_source.as_str(), p[1].value.as_str()), ("a", "_o", "cat"));
    assert_eq!(p[2].pitype, PIType::Load);
    assert_eq!((p[2].source.as_str(), p[2].target.as_str()), ("_o", "r"));
}

#[test]
fn argument_count_gate() {
    let method = convert_to_method(&s("%argmin=1,argmax=2\nvar x\nload x from _0\nwrite x to _stdout")).unwrap();
    let d = Dictionary::new();
    let with = |n: usize| -> Result<String, CError> {
        let args: Vec<String> = (0..n).map(|i| format!("a{}", i)).collect();
        interpret(&method, &s(""), &args, 0, &d)
    };
    assert!(with(0).is_err());
    assert_eq!(with(0).unwrap_err().kind, ErrorKind::Runtime);
    assert_eq!(with(1).unwrap(), "a0\n");
    assert_eq!(with(2).unwrap(), "a0\n");
    assert!(with(3).is_err());
}

#[test]
fn self_recursive_method_hits_depth_limit() {
    let method = convert_to_method(&s("%argmin=0,argmax=1\nvar x\nload x from _stdin\napply selfref<> to x\nwrite x to _stdout")).unwrap();
    let mut d = Dictionary::new();
    d.put(&s("selfref"), method.clone());
    let e = interpret(&method, &s("abc"), &vec![], 0, &d).unwrap_err();
    assert_eq!(e.kind, ErrorKind::Recursion);
}

#[test]
fn external_transform_runs_until_depth_sixty_four() {
    let up = convert_to_method(&s("%argmin=0,argmax=3\nvar x\nload x from _stdin\napply upper<> to x\nwrite x to _stdout")).unwrap();
    let mut d = Dictionary::new();
    d.put(&s("up"), up);
    assert!(d.contains(&s("up")));
    assert_eq!(external_transform(&s("ab"), &s("up"), &vec![], 64, &d).unwrap(), "AB\n");
    let e = external_transform(&s("ab"), &s("up"), &vec![], 65, &d).unwrap_err();
    assert_eq!(e.kind, ErrorKind::Recursion);
    let e = external_transform(&s("ab"), &s("missing"), &vec![], 0, &d).unwrap_err();
    assert_eq!(e.kind, ErrorKind::Runtime);
}

#[test]
fn stdin_lines_are_read_in_turn() {
    let script = "%argmin=0,argmax=0\nvar a\nvar b\nload a from _stdin\nload b from _stdin\nwrite b to _stdout\nwrite a to _stdout";
    assert_eq!(run(script, "one\ntwo\nthree", &[]).unwrap(), "two\none\n");
    let e = run("%argmin=0,argmax=0\nvar a\nload a from _stdin", "", &[]).unwrap_err();
    assert_eq!(e.kind, ErrorKind::Runtime);
}

#[test]
fn transforms_with_arguments() {
    let script = "%argmin=1,argmax=1\nvar x\nload x from _0\napply shift<3> to x\nwrite x to _stdout\napply shift<-3> to x\nwrite x to _stdout";
    assert_eq!(run(script, "", &["Hello, Zz"]).unwrap(), "Khoor, Cc\nHello, Zz\n");
    let script = "%argmin=1,argmax=1\nvar x\nload x from _0\napply rc<3> to x\nwrite x to _stdout\napply rc_dec<3> to x\nwrite x to _stdout";
    assert_eq!(run(script, "", &["WEAREDISCOVEREDFLEEATONCE"]).unwrap(), "WECRLTEERDSOEEFEAOCAIVDEN\nWEAREDISCOVEREDFLEEATONCE\n");
}

#[test]
fn operation_results() {
    assert_eq!(apply_operation(&s("ab"), &s("cd"), &s("cat")).unwrap(), "abcd");
    assert_eq!(apply_operation(&s("ab"), &s("ab"), &s("eq")).unwrap(), "");
    assert_eq!(apply_operation(&s("ab"), &s("cd"), &s("eq")).unwrap(), "false");
    assert_eq!(apply_operation(&s("ab"), &s("3"), &s("repeat")).unwrap(), "ababab");
    assert_eq!(apply_operation(&s("ab"), &s("0"), &s("repeat")).unwrap(), "");
    assert!(apply_operation(&s("ab"), &s("x"), &s("repeat")).is_err());
    assert!(apply_operation(&s("ab"), &s("cd"), &s("nope")).is_err());
}

#[test]
fn constant_limits() {
    let ok = format!("%argmin=0,argmax=0\nconst c \"{}\"\nwrite c to _stdout", "a".repeat(256));
    assert!(convert_to_method(&ok).is_ok());
    let long = format!("%argmin=0,argmax=0\nconst c \"{}\"\nwrite c to _stdout", "a".repeat(257));
    assert_eq!(convert_to_method(&long).unwrap_err().kind, ErrorKind::Assembly);
    let mut many = String::from("%argmin=0,argmax=0\n");
    for i in 0..256 {
        many.push_str(&format!("const c{} \"v\"\n", i));
    }
    assert_eq!(convert_to_method(&many).unwrap_err().kind, ErrorKind::Assembly);
    let mut fits = String::from("%argmin=0,argmax=0\n");
    for i in 0..255 {
        fits.push_str(&format!("const c{} \"v\"\n", i));
    }
    let m = convert_to_method(&fits).unwrap();
    assert_eq!(m[0xb], 255);
}

#[test]
fn compile_errors_by_kind() {
    assert_eq!(convert_to_method(&s("var x")).unwrap_err().kind, ErrorKind::Assembly);
    assert_eq!(convert_to_method(&s("%argmin=0,argmax=0\nvar _x")).unwrap_err().kind, ErrorKind::Symbol);
    assert_eq!(convert_to_method(&s("%argmin=0,argmax=0\nvar x\nvar x")).unwrap_err().kind, ErrorKind::Symbol);
    assert_eq!(convert_to_method(&s("%argmin=0,argmax=0\nwrite y to _stdout")).unwrap_err().kind, ErrorKind::Symbol);
    assert_eq!(convert_to_method(&s("%argmin=0,argmax=0\nvar x\nload x from")).unwrap_err().kind, ErrorKind::Structure);
    assert_eq!(convert_to_method(&s("%argmin=0,argmax=0\nconst c \"a\"\nload c from _0")).unwrap_err().kind, ErrorKind::Resolution);
    let e = convert_to_method(&s("%argmin=0,argmax=0\n\n$")).unwrap_err();
    assert_eq!(e.kind, ErrorKind::Lexical);
    assert_eq!(e.line, 3);
    assert_eq!(e.message(), "Line 3: Null operations are not permitted");
    assert_eq!(convert_to_method(&s("%argmin=0,argmax=0\n\"\\q\"")).unwrap_err().kind, ErrorKind::Lexical);
    assert_eq!(convert_to_method(&s("%argmin=0,argmax=0\n!file")).unwrap_err().kind, ErrorKind::Lexical);
    assert_eq!(convert_to_method(&s("%argmin=0,argmax=0\nfoo>")).unwrap_err().kind, ErrorKind::Lexical);
    assert_eq!(convert_to_method(&s("%argmin=0,argmax=0\n%")).unwrap_err().kind, ErrorKind::Lexical);
    assert_eq!(convert_to_method(&s("%argmin=0,bogus=1")).unwrap_err().kind, ErrorKind::Assembly);
    assert_eq!(convert_to_method(&s("%argmin=0,argmax=300")).unwrap_err().kind, ErrorKind::Assembly);
}

#[test]
fn header_layout() {
    let m = convert_to_method(&s("%argmin=1,argmax=2\nconst g \"hi\"\nwrite g to _stdout")).unwrap();
    assert_eq!(&m[0..4], b"CPTH");
    assert_eq!(&m[4..8], &[0x37, 0x37, 0x37, 0]);
    assert_eq!((m[8], m[9], m[10], m[11]), (1, 2, 2, 1));
    assert_eq!(((m[12] as usize) << 8) | m[13] as usize, 16 + 5);
    assert_eq!((m[14], m[15]), (0, 0));
    // load from constant slot 0x100 to special slot 0x309
    assert_eq!(&m[16..21], &[0, 0x01, 0x00, 0x03, 0x09]);
    assert_eq!(&m[21..], &[0, 2, b'h', b'i', 0]);
    assert_eq!(get_const(&m, 21, 0).unwrap(), "hi");
    assert!(get_const(&m, 21, 1).is_err());
    let h = create_header(0, 3, 2, 10, 1).unwrap();
    assert_eq!(h, vec![0x43, 0x50, 0x54, 0x48, 0x37, 0x37, 0x37, 0, 0, 3, 2, 2, 0, 26, 1, 0]);
    assert!(create_header(-1, 3, 2, 10, 1).is_err());
    assert!(create_header(0, 3, 256, 10, 1).is_err());
}

#[test]
fn constant_table_offsets() {
    let vals = vec![(s("a"), s("xy")), (s("b"), s("z"))];
    let names = vec![s("a"), s("b")];
    assert_eq!(generate_const(&vals, &names).unwrap(), vec![0, 4, 0, 7, b'x', b'y', 0, b'z', 0]);
    assert!(generate_const(&vals, &vec![s("q")]).is_err());
}

#[test]
fn lexing_a_line() {
    let t = tokenize_line(&s("apply shift<3,\"a b\"> to x"), 4).unwrap();
    assert_eq!(t.len(), 5);
    match &t[1].ttype {
        TType::Transform(n, a) => {
            assert_eq!(n, "shift");
            assert_eq!(a, &vec![s("3"), s("\"a b\"")]);
        }
        _ => panic!("expected a transform"),
    }
    assert!(t[0].is_apply() && t[2].is_to() && t[3].is_ident());
    assert_eq!(t[0].line, 4);
    assert!(matches!(t[4].ttype, TType::EndStatement));
    let t = tokenize_line(&s("const g \"a\\tb\""), 1).unwrap();
    match &t[2].ttype {
        TType::Str(v) => assert_eq!(v, "a\tb"),
        _ => panic!("expected a string"),
    }
    assert!(tokenize_line(&s("   "), 1).unwrap().is_empty());
    let toks = tokenize(&vec![s("# note"), s(""), s("var x")]).unwrap();
    assert_eq!(toks.len(), 3);
    assert_eq!(toks[0].line, 3);
}

#[test]
fn lexing_one_segment() {
    assert!(matches!(lex_segment(&s("$cat"), 1, None).unwrap(), TType::Operation(ref o) if o == "cat"));
    assert!(matches!(lex_segment(&s("%argmin=1"), 1, None).unwrap(), TType::Directive(ref o) if o == "argmin=1"));
    assert!(matches!(lex_segment(&s("\"x\""), 1, Some(s("x"))).unwrap(), TType::Str(ref o) if o == "x"));
    assert_eq!(lex_segment(&s("\"x\""), 2, None).unwrap_err().line, 2);
    assert!(matches!(lex_segment(&s("from"), 1, None).unwrap(), TType::From));
    assert!(matches!(lex_segment(&s("fromage"), 1, None).unwrap(), TType::Identifier(_)));
}

#[test]
fn quote_aware_split() {
    assert_eq!(parse("a  b \"c d\" e", ' '), vec![s("a"), s("b"), s("\"c d\""), s("e")]);
    assert_eq!(parse("", ','), Vec::<String>::new());
    assert_eq!(parse("1,,2,", ','), vec![s("1"), s("2")]);
}

#[test]
fn lookups() {
    let m = vec![(s("k1"), s("v")), (s("k2"), s("w")), (s("k3"), s("v"))];
    assert_eq!(value_in_str_map(&m, &s("v")), Some(s("k1")));
    assert_eq!(value_in_str_map(&m, &s("q")), None);
    let v = vec![s("a"), s("b"), s("a")];
    assert_eq!(index_of_vec_val(&v, &s("a")), Some(0));
    assert_eq!(index_of_vec_val(&v, &s("b")), Some(1));
    assert_eq!(index_of_vec_val(&v, &s("c")), None);
}

#[test]
fn special_variables() {
    assert_eq!(get_special_var_num("_"), Some(0));
    assert_eq!(get_special_var_num("_o"), Some(1));
    assert_eq!(get_special_var_num("_stdout"), Some(9));
    assert_eq!(get_special_var_num("_0"), Some(0x40));
    assert_eq!(get_special_var_num("_31"), Some(0x5f));
    assert_eq!(get_special_var_num("_32"), None);
    assert_eq!(get_special_var_num("x"), None);
    assert!(is_valid_special_var("_#"));
    assert!(is_valid_special_var("_loc"));
    assert!(!is_valid_special_var("_nope"));
    assert!(!is_valid_special_var(""));
}

#[test]
fn symbols_and_resolution() {
    let mut toks = tokenize(&vec![s("var x"), s("const c \"k\""), s("load x from c $cat _0"), s("apply shift<2,key> to x")]).unwrap();
    let sts = organize_tokens(&mut toks).unwrap();
    let (vars, consts, cvals) = locate_vars(&sts).unwrap();
    assert_eq!(vars, vec![s("x")]);
    assert_eq!(consts.len(), 4);
    assert_eq!(consts[0], "c");
    assert_eq!(cvals[1].1, "cat");
    assert_eq!(cvals[2].1, "shift");
    assert_eq!(cvals[3].1, "key");
    let p = consolidate(&sts).unwrap();
    let r = resolve_references(&p, &vars, &consts, &cvals).unwrap();
    // operation: c (constant 0), _0 (argument 0), cat (constant 1)
    assert_eq!((r[0].source.as_str(), r[0].second_source.as_str(), r[0].value.as_str()), ("256", "832", "257"));
    // load: _o into x
    assert_eq!((r[1].source.as_str(), r[1].target.as_str()), ("769", "0"));
    // apply: x, shift (constant 2), args 2 and key (constant 3)
    assert_eq!((r[2].target.as_str(), r[2].value.as_str()), ("0", "258"));
    assert_eq!(r[2].args, vec![s("2"), s("259")]);
    assert_eq!(r[2].arg_str, vec![false, true]);
    let b = r[2].binarify().unwrap();
    assert_eq!(b.args, vec![2, 0x4000 + 259]);
    assert_eq!(b.binary().unwrap(), vec![1, 0, 0, 1, 2, 2, 0, 2, 0x41, 0x03]);
    let bad = vec![ProtoInstruction::new()];
    assert_eq!(resolve_references(&bad, &vars, &consts, &cvals).unwrap()[0].pitype, PIType::Nil);
}

#[test]
fn instruction_encoding() {
    let mut p = ProtoInstruction::new();
    p.pitype = PIType::Operation;
    p.source = s("1");
    p.second_source = s("770");
    p.value = s("256");
    let b = p.binarify().unwrap();
    assert_eq!(b.binary().unwrap(), vec![2, 0, 1, 3, 2, 1, 0]);
    p.clear();
    assert!(p.binarify().is_err());
    let mut a = ProtoInstruction::new();
    a.pitype = PIType::Apply;
    a.target = s("0");
    a.value = s("257");
    a.args = vec![s("-5"), s("7")];
    a.arg_str = vec![false, false];
    let b = a.binarify().unwrap();
    assert_eq!(b.args, vec![0x0400 + 5, 7]);
    assert_eq!(b.argc, 2);
    a.args = vec![s("2000")];
    a.arg_str = vec![false];
    assert!(a.binarify().is_err());
    let mut bad = BinaryInstruction::new();
    assert!(bad.binary().is_err());
    bad.opcode = 0;
    bad.first = 0x1234;
    assert_eq!(bad.binary().unwrap(), vec![0, 0x12, 0x34, 0, 0]);
}

#[test]
fn compile_removes_directives() {
    let mut toks = vec![
        Token::new_val(TType::Directive(s("argmin=0,argmax=0")), 1),
        Token::new_val(TType::EndStatement, 0),
        Token::new_val(TType::Var, 2),
        Token::new_val(TType::Identifier(s("x")), 2),
        Token::new_val(TType::EndStatement, 0),
    ];
    let m = compile(&mut toks).unwrap();
    assert_eq!(toks.len(), 4);
    assert_eq!(m.len(), 16);
    assert_eq!(m[14], 1);
    assert_eq!(interpret(&m, &s(""), &vec![], 0, &Dictionary::new()).unwrap(), "");
}

#[test]
fn malformed_methods_are_rejected() {
    let d = Dictionary::new();
    assert!(interpret(&vec![0; 10], &s(""), &vec![], 0, &d).is_err());
    let mut m = convert_to_method(&s("%argmin=0,argmax=0\nconst g \"hi\"\nwrite g to _stdout")).unwrap();
    m[0] = b'X';
    assert!(interpret(&m, &s(""), &vec![], 0, &d).is_err());
    let mut m = convert_to_method(&s("%argmin=0,argmax=0\nconst g \"hi\"\nwrite g to _stdout")).unwrap();
    m[16] = 7;
    assert!(interpret(&m, &s(""), &vec![], 0, &d).is_err());
    let unsupported = convert_to_method(&s("%argmin=0,argmax=0\nvar x\nload x from _randU")).unwrap();
    assert!(interpret(&unsupported, &s(""), &vec![], 0, &d).is_err());
}

#[test]
fn error_messages() {
    let e = CError::from_slice("boom");
    assert_eq!(e.message(), "boom");
    assert_eq!(e.kind, ErrorKind::Runtime);
    let e = CError::new(ErrorKind::Symbol, 12, "bad");
    assert_eq!(e.message(), "Line 12: bad");
}

#[test]
fn token_predicates() {
    let t = Token::new();
    assert!(matches!(t.ttype, TType::Nil));
    assert_eq!(t.line, 0);
    let kinds = vec![
        (TType::Var, "var"),
        (TType::Const, "const"),
        (TType::Load, "load"),
        (TType::Apply, "apply"),
        (TType::Write, "write"),
        (TType::To, "to"),
        (TType::From, "from"),
        (TType::Operation(s("cat")), "oper"),
        (TType::Transform(s("upper"), vec![]), "transform"),
        (TType::Identifier(s("x")), "ident"),
    ];
    for (k, name) in kinds {
        let t = Token::new_val(k, 7);
        let d = t.duplicate();
        assert_eq!(d.line, 7);
        let flags = [
            ("var", d.is_var()),
            ("const", d.is_const()),
            ("load", d.is_load()),
            ("apply", d.is_apply()),
            ("write", d.is_write()),
            ("to", d.is_to()),
            ("from", d.is_from()),
            ("oper", d.is_oper()),
            ("transform", d.is_transform()),
            ("ident", d.is_ident()),
        ];
        for (n, f) in flags {
            assert_eq!(f, n == name, "{} on {}", n, name);
        }
    }
}

#[test]
fn repeat_count_spans_the_unsigned_range() {
    assert_eq!(apply_operation(&s(""), &s("4294967296"), &s("repeat")).unwrap(), "");
    assert_eq!(apply_operation(&s(""), &s("18446744073709551615"), &s("repeat")).unwrap(), "");
    assert!(apply_operation(&s(""), &s("18446744073709551616"), &s("repeat")).is_err());
    assert!(apply_operation(&s("a"), &s("-1"), &s("repeat")).is_err());
    assert_eq!(apply_operation(&s("a"), &s("+2"), &s("repeat")).unwrap(), "aa");
}

#[test]
fn generated_constant_names_cannot_be_referenced() {
    let script = "%argmin=0,argmax=0\nconst a \"x\"\nvar r\nload r from a $cat a\nwrite __cpth_cGenConst`1 to _stdout";
    let e = convert_to_method(&s(script)).unwrap_err();
    assert_eq!(e.kind, ErrorKind::Symbol);
    assert_eq!(e.line, 5);
}

#[test]
fn compiler_errors_carry_their_line() {
    let e = convert_to_method(&s("%argmin=0,argmax=0\nvar x\n\nconst x \"a\"")).unwrap_err();
    assert_eq!((e.kind, e.line), (ErrorKind::Symbol, 4));
    let e = convert_to_method(&s("%argmin=0,argmax=0\nvar x\n# note\nload x from")).unwrap_err();
    assert_eq!((e.kind, e.line), (ErrorKind::Structure, 4));
    let e = convert_to_method(&s("%argmin=0,argmax=0\nconst c \"a\"\n\nload c from _0")).unwrap_err();
    assert_eq!((e.kind, e.line), (ErrorKind::Resolution, 4));
    let e = tokenize_line(&s("var \"\\q\""), 9).unwrap_err();
    assert_eq!((e.kind, e.line), (ErrorKind::Lexical, 9));
    assert!(e.message().starts_with("Line 9"));
}
