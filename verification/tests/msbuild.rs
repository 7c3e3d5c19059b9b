use structured_log_viewer::model::{SemanticFile, SemanticImport, SemanticSkippedImport};
use structured_log_viewer::msbuild::{
    import_annotations, line_at, line_starts, tokenize, HighlightKind, Highlights, Navigation, SemanticIndex, TokenKind,
};

const SAMPLE: &str = r#"<Project Sdk="Microsoft.NET.Sdk">
  <PropertyGroup>
    <OutDir Condition="'$(OutDir)' == ''">$(BaseOutputPath)bin\</OutDir>
  </PropertyGroup>
  <Import Project="$(CustomProps)" Condition="'$(CustomProps)' != ''" />
  <Target Name="Build" DependsOnTargets="Restore;$(ExtraTargets);Compile" />
</Project>
"#;

#[test]
fn tokenizes_properties_imports_and_targets() {
    let tokens = tokenize(SAMPLE);
    let names: Vec<(TokenKind, &str, usize)> = tokens.iter().map(|t| (t.kind, t.name.as_str(), t.line)).collect();
    assert!(names.contains(&(TokenKind::SdkReference, "Microsoft.NET.Sdk", 1)));
    assert!(names.contains(&(TokenKind::Property, "OutDir", 3)));
    assert!(names.contains(&(TokenKind::Property, "BaseOutputPath", 3)));
    // The whole Project attribute is one import link; the $(CustomProps)
    // inside it is dropped rather than overlapping.
    assert!(names.contains(&(TokenKind::ImportPath, "$(CustomProps)", 5)));
    assert!(!names.iter().any(|(k, n, l)| *k == TokenKind::Property && *n == "CustomProps" && *l == 5 && false));
    assert!(names.contains(&(TokenKind::TargetDefinition, "Build", 6)));
    assert!(names.contains(&(TokenKind::TargetReference, "Restore", 6)));
    assert!(names.contains(&(TokenKind::TargetReference, "Compile", 6)));
    assert!(names.contains(&(TokenKind::Property, "ExtraTargets", 6)));
    let starts: Vec<usize> = tokens.iter().map(|t| t.range.start).collect();
    assert!(starts.windows(2).all(|w| w[0] <= w[1]), "tokens sorted by offset");
}

#[test]
fn highlights_expressions_inside_attribute_values() {
    let h = Highlights::scan(SAMPLE);
    let line3 = line_starts(SAMPLE)[2];
    let text = SAMPLE.lines().nth(2).unwrap();
    let runs = h.runs(line3..line3 + text.len());
    let kind_at = |needle: &str| {
        let off = text.find(needle).unwrap();
        runs.iter().find(|(r, _)| r.contains(&off)).map(|(_, k)| *k).unwrap()
    };
    assert_eq!(kind_at("OutDir"), HighlightKind::ElementName);
    assert_eq!(kind_at("Condition"), HighlightKind::AttributeName);
    assert_eq!(kind_at("$(OutDir)"), HighlightKind::Expression);
    assert_eq!(kind_at("== ''"), HighlightKind::AttributeValue);
}

#[test]
fn anchors_skipped_import_notes_to_the_element_line() {
    let skipped = vec![SemanticSkippedImport {
        line: 5,
        column: 3,
        file_spec: Some("$(CustomProps)".into()),
        reason: None,
        condition: Some("'$(CustomProps)' != ''".into()),
        evaluated_condition: Some("'' != ''".into()),
    }];
    let notes = import_annotations(SAMPLE, &skipped);
    assert_eq!(notes.get(&4).map(String::as_str), Some("'' != '' → false"));
}

#[test]
fn index_joins_tokens_to_recorded_edges() {
    let file = SemanticFile {
        imports: vec![SemanticImport { line: 0, column: 0, imported_path: "/sdk/Sdk.props".into(), available: true }],
        skipped_imports: vec![SemanticSkippedImport {
            line: 5,
            column: 3,
            file_spec: None,
            reason: Some("Not imported due to false condition".into()),
            condition: None,
            evaluated_condition: None,
        }],
        ..Default::default()
    };
    let index = SemanticIndex::new(SAMPLE, file);
    let sdk = index.tokens.iter().find(|t| t.kind == TokenKind::SdkReference).unwrap();
    assert!(index.is_navigable(sdk), "implicit SDK imports make the Sdk attribute navigable");
    assert!(matches!(index.import_navigation(sdk), Navigation::Open(_)));
    let import = index.tokens.iter().find(|t| t.kind == TokenKind::ImportPath).unwrap();
    assert!(!index.is_navigable(import), "a skipped import has nowhere to go");
    assert!(matches!(index.import_navigation(import), Navigation::Unavailable(_)));
    let off = SAMPLE.find("BaseOutputPath").unwrap();
    assert_eq!(index.token_at(off).map(|t| t.name.as_str()), Some("BaseOutputPath"));
}

#[test]
fn plain_text_has_one_text_run_and_no_tokens() {
    let text = "just words; 100% (not an expression) and #hashes";
    let h = Highlights::scan(text);
    assert_eq!(h.runs(0..text.len()), vec![(0..text.len(), HighlightKind::Text)]);
    assert!(tokenize("plain words, no references").is_empty());
}

#[test]
fn the_line_of_an_offset_counts_the_newlines_before_it() {
    let text = "a\nbc\n\nd";
    let starts = line_starts(text);
    for offset in 0..=text.len() {
        let newlines = text.as_bytes()[..offset].iter().filter(|&&b| b == b'\n').count();
        let line = line_at(offset, &starts);
        assert_eq!(line, 1 + newlines);
        assert!(starts[line - 1] <= offset);
        assert!(line == starts.len() || offset < starts[line]);
    }
}

#[test]
fn highlight_kinds_read_back_from_their_bytes() {
    let kinds = [
        HighlightKind::Text,
        HighlightKind::Punctuation,
        HighlightKind::ElementName,
        HighlightKind::AttributeName,
        HighlightKind::AttributeValue,
        HighlightKind::Comment,
        HighlightKind::Entity,
        HighlightKind::Expression,
    ];
    for (i, k) in kinds.iter().enumerate() {
        assert_eq!(k.code() as usize, i);
        assert_eq!(HighlightKind::from_u8(k.code()), *k);
    }
    assert_eq!(HighlightKind::from_u8(0), HighlightKind::Text);
    assert_eq!(HighlightKind::from_u8(8), HighlightKind::Text);
    assert_eq!(HighlightKind::from_u8(255), HighlightKind::Text);
}

#[test]
fn the_index_hands_out_its_tokens_and_file() {
    let file = || SemanticFile { path: Some("/p/a.proj".to_string()), ..Default::default() };
    let index = SemanticIndex::new(SAMPLE, file());
    assert_eq!(index.tokens(), &index.tokens);
    assert_eq!(index.file(), &file());
}
