use tsmove::infer_langauge_from_suffix;
use tsmove::is_valid_abs_path;
use tsmove::resolver::from_absolute;
use tsmove::resolver::to_absolute;
use tsmove::update_imports;
use tsmove::Error;
use tsmove::Lang;

fn bytes(s: &str) -> Vec<u8> {
    s.as_bytes().to_vec()
}

fn update(code: &str, src: &str, tgt: &str) -> Result<String, Error> {
    update_imports(bytes(code), &bytes(src), &bytes(tgt))
        .map(|v| String::from_utf8(v).unwrap())
}

#[test]
fn it_updates_imports_0() {
    let code: String = r#"
            import some from '../../some';
            import other from '../../other';
            function main() {
                console.log("hullo world");
            }
            "#
    .into();

    let source = "/src/a/b/c/d/source.ts";
    let target = "/src/a/b/c/d/e/target.ts";

    let new_source_code = update(&code, source, target).unwrap();

    let new_import_0: String = "import some from '../../../some';".into();
    let new_import_1: String = "import other from '../../../other';".into();

    assert!(new_source_code.contains(&new_import_0));
    assert!(new_source_code.contains(&new_import_1));
}

#[test]
fn it_updates_imports_1() {
    let code: String = r#"
            import some from '../../some';
            import other from '../../other';
            function main() {
                console.log("hullo world");
            }
            "#
    .into();

    let source = "/src/a/b/c/d/source.ts";
    let target = "/src/a/target.ts";

    let new_source_code = update(&code, source, target).unwrap();

    let new_import_0: String = "import some from './b/some';".into();
    let new_import_1: String = "import other from './b/other';".into();

    assert!(new_source_code.contains(&new_import_0));
    assert!(new_source_code.contains(&new_import_1));
}

#[test]
fn same_directory_move_is_identity() {
    let code = "import some from '../../some';\nimport other from './sib';\n";
    let got = update(code, "/src/a/b/old.ts", "/src/a/b/renamed.ts").unwrap();
    assert_eq!(got, code);
}

#[test]
fn noop_move_never_changes_output() {
    let code = "import some from '../../some';\nconst x = 1;\n";
    let once = update(code, "/src/a/b/file.ts", "/src/a/b/file.ts").unwrap();
    assert_eq!(once, code);
    let twice = update(&once, "/src/a/b/file.ts", "/src/a/b/file.ts").unwrap();
    assert_eq!(twice, code);
}

#[test]
fn exact_rewritten_text() {
    let code = "import a from './x';\nlet y = 1;\n";
    let got = update(code, "/r/s/old.ts", "/r/t/new.ts").unwrap();
    assert_eq!(got, "import a from '../s/x';\nlet y = 1;\n");
}

#[test]
fn non_relative_specifiers_are_never_modified() {
    let code = "import fs from 'fs';\nimport lodash from \"lodash\";\n";
    let got = update(code, "/src/a/b/c/d/source.ts", "/src/deep/e/f/target.ts").unwrap();
    assert_eq!(got, code);
}

#[test]
fn double_quoted_imports_keep_their_quotes() {
    let code = "import other from \"../../other\";\n";
    let got = update(code, "/src/a/b/c/d/source.ts", "/src/a/b/c/d/e/target.ts").unwrap();
    assert_eq!(got, "import other from \"../../../other\";\n");
}

#[test]
fn side_effect_import_is_rewritten() {
    let code = "import './setup';\nimport x from 'pkg';\n";
    let got = update(code, "/p/q/a.ts", "/p/r/b.ts").unwrap();
    assert_eq!(got, "import '../q/setup';\nimport x from 'pkg';\n");
}

#[test]
fn quotes_in_comments_are_ignored() {
    let code = "// it's a comment\n/* don't 'import' here */\nimport a from './x';\n";
    let got = update(code, "/p/q/a.ts", "/p/r/b.ts").unwrap();
    assert_eq!(got, "// it's a comment\n/* don't 'import' here */\nimport a from '../q/x';\n");
}

#[test]
fn other_string_literals_are_left_alone() {
    let code = "import a from './x';\nconst s = './x';\n";
    let got = update(code, "/p/q/a.ts", "/p/r/b.ts").unwrap();
    assert_eq!(got, "import a from '../q/x';\nconst s = './x';\n");
}

#[test]
fn parse_failure_yields_an_error_and_no_text() {
    let code = "import some from '../../some";
    let got = update(code, "/src/a/b/source.ts", "/src/c/target.ts");
    assert_eq!(got, Err(Error::ParseError));
}

#[test]
fn unterminated_block_comment_is_a_parse_failure() {
    let code = "/* still open\nimport a from './x';";
    let got = update(code, "/p/q/a.ts", "/p/r/b.ts");
    assert_eq!(got, Err(Error::ParseError));
}

#[test]
fn unknown_target_suffix_is_refused() {
    let code = "import a from './x';\n";
    assert_eq!(update(code, "/p/q/a.ts", "/p/r/b.js"), Err(Error::UnsupportedFile));
    assert_eq!(update(code, "/p/q/a.ts", "/p/r/noext"), Err(Error::UnsupportedFile));
}

#[test]
fn import_escaping_the_root_is_refused() {
    let code = "import x from '../../esc';\n";
    let got = update(code, "/a/source.ts", "/b/target.ts");
    assert_eq!(got, Err(Error::ImportEscapesRoot));
}

#[test]
fn chained_moves_preserve_the_module() {
    let code = "import some from '../../some';\n";
    let p1 = "/src/a/b/c/d/source.ts";
    let p2 = "/src/x/mid.ts";
    let p3 = "/src/a/q/r/last.tsx";

    let c2 = update(code, p1, p2).unwrap();
    let c3 = update(&c2, p2, p3).unwrap();

    let spec3 = c3.split('\'').nth(1).unwrap().to_string();
    let m1 = to_absolute(&bytes(p1), &bytes("../../some")).unwrap();
    let m3 = to_absolute(&bytes(p3), &bytes(&spec3)).unwrap();
    assert_eq!(m1, m3);
}

#[test]
fn resolver_round_trip_on_concrete_paths() {
    let module = vec![bytes("src"), bytes("a"), bytes("b"), bytes("some")];
    let written = from_absolute(&bytes("/src/a/b/c/d/e/target.ts"), &module);
    assert_eq!(written, bytes("../../../some"));
    let back = to_absolute(&bytes("/src/a/b/c/d/e/target.ts"), &written).unwrap();
    assert_eq!(back, module);
}

#[test]
fn from_absolute_strips_a_known_extension() {
    let module = vec![bytes("a"), bytes("x.ts")];
    assert_eq!(from_absolute(&bytes("/a/b.ts"), &module), bytes("./x"));
    let tsx = vec![bytes("a"), bytes("y.tsx")];
    assert_eq!(from_absolute(&bytes("/a/b.ts"), &tsx), bytes("./y"));
}

#[test]
fn language_is_inferred_from_the_suffix() {
    assert_eq!(infer_langauge_from_suffix(&bytes("/a/b/c.ts")), Ok(Lang::TypeScript));
    assert_eq!(infer_langauge_from_suffix(&bytes("/a/b/c.tsx")), Ok(Lang::TypeScriptTsx));
    assert_eq!(infer_langauge_from_suffix(&bytes("/a/b/c.js")), Err(Error::UnsupportedFile));
    assert_eq!(infer_langauge_from_suffix(&bytes("/a/b/plain")), Err(Error::UnsupportedFile));
    assert_eq!(infer_langauge_from_suffix(&bytes("/a/b/.ts")), Err(Error::UnsupportedFile));
}

#[test]
fn absolute_path_validity() {
    assert!(is_valid_abs_path(&bytes("/a/b.ts")));
    assert!(is_valid_abs_path(&bytes("/src/a/b/c/d/source.ts")));
    assert!(!is_valid_abs_path(&bytes("a/b.ts")));
    assert!(!is_valid_abs_path(&bytes("/a//b.ts")));
    assert!(!is_valid_abs_path(&bytes("/a/../b.ts")));
    assert!(!is_valid_abs_path(&bytes("/")));
    assert!(!is_valid_abs_path(&bytes("")));
}

#[test]
fn identifier_ending_in_from_is_not_a_keyword() {
    let code = "const x = notfrom './x';\n";
    let got = update(code, "/p/q/a.ts", "/p/r/b.ts").unwrap();
    assert_eq!(got, code);
}

#[test]
fn newline_between_keyword_and_literal_still_counts() {
    let code = "import x\nfrom\n'./x';\n";
    let got = update(code, "/p/q/a.ts", "/p/r/b.ts").unwrap();
    assert_eq!(got, "import x\nfrom\n'../q/x';\n");
}

#[test]
fn empty_text_stays_empty() {
    let got = update("", "/p/q/a.ts", "/p/r/b.ts").unwrap();
    assert_eq!(got, "");
}
