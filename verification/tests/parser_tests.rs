use libdonet::dcfile::DCFile;
use libdonet::dcfile::LookupError;
use libdonet::dcparser::DCReadError;
use libdonet::dcparser::parse;
use libdonet::dclexer::DCToken;
use libdonet::dclexer::Span;
use libdonet::dclexer::lex;
use libdonet::dcparser::read_dc_text;

fn parse_ok(input: &str) -> DCFile {
    match read_dc_text(input) {
        Ok(f) => f,
        Err(e) => panic!("expected a successful parse, got {:?}", e),
    }
}

#[test]
fn python_module_imports() {
    let dc_file: &str = "from example-views import DistributedDonut\n\
                         from views import DistributedDonut/AI/OV\n\
                         from views/AI/OV import DistributedDonut/AI/OV\n\
                         from game.views.Donut/AI import DistributedDonut/AI\n\
                         from views import *\n";
    let parsed: DCFile = parse_ok(dc_file);
    assert_eq!(parsed.get_num_imports(), 8);
}

#[test]
fn class_suffixes_expand_to_one_record() {
    let parsed: DCFile = parse_ok("from views import DistributedDonut/AI/OV\n");
    assert_eq!(parsed.get_num_imports(), 1);
    assert_eq!(parsed.imports[0].module, "views");
    assert_eq!(
        parsed.imports[0].symbols,
        vec![
            String::from("DistributedDonut"),
            String::from("DistributedDonutAI"),
            String::from("DistributedDonutOV")
        ]
    );
}

#[test]
fn module_suffixes_pair_with_class_suffixes() {
    let parsed: DCFile = parse_ok("from game.views.Donut/AI import DistributedDonut/AI\n");
    assert_eq!(parsed.get_num_imports(), 2);
    assert_eq!(parsed.imports[0].module, "game.views.Donut");
    assert_eq!(parsed.imports[0].symbols, vec![String::from("DistributedDonut")]);
    assert_eq!(parsed.imports[1].module, "game.views.DonutAI");
    assert_eq!(parsed.imports[1].symbols, vec![String::from("DistributedDonutAI")]);
}

#[test]
fn star_import_has_no_suffix_expansion() {
    let parsed: DCFile = parse_ok("from views import *\n");
    assert_eq!(parsed.get_num_imports(), 1);
    assert_eq!(parsed.imports[0].module, "views");
    assert_eq!(parsed.imports[0].symbols, vec![String::from("*")]);
}

#[test]
fn mismatched_suffix_counts_are_an_explicit_error() {
    let res = read_dc_text("from views/AI/OV import DistributedDonut/AI\n");
    match res {
        Err(DCReadError::Syntax(e)) => {
            assert_eq!(e.message, "mismatched module and class view suffixes");
        }
        other => panic!("expected a syntax error, got {:?}", other),
    }
}

#[test]
fn missing_closing_brace_is_a_syntax_error() {
    let res = read_dc_text("dclass Donut {\n");
    match res {
        Err(DCReadError::Syntax(e)) => {
            // the input ended before the closing token
            assert!(e.token.is_none());
            assert_eq!(e.message, "expected '}' or a field declaration");
        }
        other => panic!("expected a syntax error, got {:?}", other),
    }
}

#[test]
fn unexpected_token_is_reported_with_its_span() {
    let res = read_dc_text("; nonsense");
    match res {
        Err(DCReadError::Syntax(e)) => {
            assert_eq!(e.message, "expected a type declaration");
            let (tok, span) = e.token.expect("the offending token is present");
            assert_eq!(tok, DCToken::Semicolon);
            assert_eq!(span.min, 0);
            assert_eq!(span.line, 1);
        }
        other => panic!("expected a syntax error, got {:?}", other),
    }
}

#[test]
fn non_text_input_is_a_text_error() {
    let res = read_dc_text("dclass \u{00e9}");
    assert!(matches!(res, Err(DCReadError::Text(_))));
}

#[test]
fn dclass_lookups_by_id_and_name() {
    let text: &str = "dclass AnonymousContact {\n\
                        login(string username, string password) clsend airecv;\n\
                      };\n\
                      dclass DistributedAvatar {\n\
                        set_xyzh(int16 x, int16 y, int16 z, int16 h) broadcast required;\n\
                      };\n";
    let parsed: DCFile = parse_ok(text);
    assert_eq!(parsed.get_num_dclasses(), 2);
    let first = parsed.get_dclass_by_id(0).expect("class 0 exists");
    assert_eq!(first.identifier, "AnonymousContact");
    let second = parsed.get_dclass_by_id(1).expect("class 1 exists");
    assert_eq!(second.identifier, "DistributedAvatar");
    assert_eq!(second.field_declarations.len(), 1);
    assert_eq!(parsed.get_dclass_by_id(2), Err(LookupError::OutOfRange));
    let by_name = parsed
        .get_dclass_by_name("DistributedAvatar")
        .expect("found by name");
    assert_eq!(by_name.identifier, "DistributedAvatar");
    assert_eq!(
        parsed.get_dclass_by_name("NoSuchClass"),
        Err(LookupError::NotFound)
    );
}

#[test]
fn keyword_and_typedef_declarations_parse() {
    let parsed: DCFile = parse_ok("keyword p2p;\ntypedef uint32 doId;\ntypedef uint8 bool[2];\n");
    assert_eq!(parsed.type_decl.len(), 3);
    assert_eq!(parsed.get_num_dclasses(), 0);
    assert_eq!(parsed.get_num_imports(), 0);
}

#[test]
fn struct_declarations_parse() {
    let parsed: DCFile = parse_ok("struct BarrierData {\n  uint16 context;\n  string name;\n};\n");
    assert_eq!(parsed.type_decl.len(), 1);
}

#[test]
fn inheritance_list_is_kept_in_order() {
    let text: &str = "dclass DistributedDonut : Pastry, Dessert {\n};\n";
    let parsed: DCFile = parse_ok(text);
    let donut = parsed.get_dclass_by_id(0).expect("class 0 exists");
    assert_eq!(
        donut.parents,
        Some(vec![String::from("Pastry"), String::from("Dessert")])
    );
}

#[test]
fn parameters_take_ranges_transforms_and_defaults() {
    let text: &str = "dclass DistributedAvatar {\n\
                        indicate_intent(int16 / 10, int16 / 10) ownsend airecv;\n\
                        set_health(uint8(0-100) health = 100) required broadcast ram;\n\
                        set_name(string(32) name = \"toon\") clsend;\n\
                        set_tags(uint32[0-8] tags) db;\n\
                      };\n";
    let parsed: DCFile = parse_ok(text);
    let avatar = parsed.get_dclass_by_id(0).expect("class 0 exists");
    assert_eq!(avatar.field_declarations.len(), 4);
}

#[test]
fn lexer_classifies_tokens() {
    let toks = lex("dclass views example-views 42 3.5 'c' \"hi\" / . * ;").expect("lexes");
    let kinds: Vec<DCToken> = toks.into_iter().map(|t| t.0).collect();
    assert_eq!(
        kinds,
        vec![
            DCToken::DClass,
            DCToken::Identifier(String::from("views")),
            DCToken::Module(String::from("example-views")),
            DCToken::DecimalLiteral(42),
            DCToken::FloatLiteral(String::from("3.5")),
            DCToken::CharacterLiteral('c'),
            DCToken::StringLiteral(String::from("hi")),
            DCToken::ForwardSlash,
            DCToken::Period,
            DCToken::Star,
            DCToken::Semicolon,
        ]
    );
}

#[test]
fn lexer_tracks_lines_and_comments() {
    let toks = lex("// a comment\nkeyword /* block\ncomment */ ram;\n").expect("lexes");
    assert_eq!(toks.len(), 3);
    assert_eq!(toks[0].1.line, 2);
    assert_eq!(toks[2].1.line, 3);
}

#[test]
fn parse_accepts_a_hand_built_token_stream() {
    let span = |min: usize, max: usize| Span { min, max, line: 1 };
    let tokens = vec![
        (DCToken::Keyword, span(0, 7)),
        (DCToken::Identifier(String::from("p2p")), span(8, 11)),
        (DCToken::Semicolon, span(11, 12)),
    ];
    let parsed = parse(&tokens).expect("parses");
    assert_eq!(parsed.type_decl.len(), 1);
}

#[test]
fn empty_input_is_an_empty_model() {
    let parsed: DCFile = parse_ok("");
    assert_eq!(parsed.type_decl.len(), 0);
    assert_eq!(parsed.get_num_imports(), 0);
    assert_eq!(parsed.get_num_dclasses(), 0);
}

#[test]
fn molecular_field_aggregates_atomic_fields() {
    // each aggregated atomic field keeps its own terminator, and the
    // molecular declaration adds one more
    let text: &str = "dclass Toon {\n\
                        setXYZ : setX(int16) ram;, setY(int16) ram; ;\n\
                      };\n";
    let parsed: DCFile = parse_ok(text);
    let toon = parsed.get_dclass_by_id(0).expect("class 0 exists");
    assert_eq!(toon.field_declarations.len(), 1);
}

#[test]
fn molecular_field_aggregates_parameter_fields() {
    let text: &str = "dclass Toon {\n\
                        pose : int16 ram, uint8 db;\n\
                      };\n";
    let parsed: DCFile = parse_ok(text);
    let toon = parsed.get_dclass_by_id(0).expect("class 0 exists");
    assert_eq!(toon.field_declarations.len(), 1);
}

#[test]
fn char_parameter_takes_a_literal_default() {
    let parsed: DCFile = parse_ok("dclass D {\n  talk(char c = 'y') clsend;\n};\n");
    let class = parsed.get_dclass_by_id(0).expect("class 0 exists");
    assert_eq!(class.field_declarations.len(), 1);
}

#[test]
fn float_parameter_takes_a_range_and_default() {
    let parsed: DCFile = parse_ok("struct F {\n  float64(0.1-1.5) ratio = 0.5;\n};\n");
    assert_eq!(parsed.type_decl.len(), 1);
}

#[test]
fn struct_and_array_parameters_disambiguate_on_brackets() {
    // `Point pos` is a struct reference; `Point history[0-8]` an array
    let text: &str = "dclass D {\n  update(Point pos, Point history[0-8]) broadcast;\n};\n";
    let parsed: DCFile = parse_ok(text);
    let class = parsed.get_dclass_by_id(0).expect("class 0 exists");
    assert_eq!(class.field_declarations.len(), 1);
}

#[test]
fn binary_literals_lex_and_default_a_blob() {
    let toks = lex("0xdeadBEEF 42").expect("lexes");
    assert_eq!(toks[0].0, DCToken::BinaryLiteral(String::from("0xdeadBEEF")));
    assert_eq!(toks[1].0, DCToken::DecimalLiteral(42));
    let parsed: DCFile = parse_ok("struct B {\n  blob(4) data = 0xff00;\n};\n");
    assert_eq!(parsed.type_decl.len(), 1);
}

#[test]
fn lone_hex_prefix_is_a_lex_error() {
    assert!(matches!(read_dc_text("keyword 0x;"), Err(DCReadError::Text(_))));
}
