use plantuml_little::{layout, layout_engine, DiagramKind, DiagramLayout, LayoutEngine};

#[test]
fn engines_per_diagram_kind() {
    assert_eq!(layout_engine(&DiagramKind::Class), LayoutEngine::Class);
    assert_eq!(
        layout_engine(&DiagramKind::Sequence { teoz: true }),
        LayoutEngine::SequenceTeoz
    );
    assert_eq!(
        layout_engine(&DiagramKind::Sequence { teoz: false }),
        LayoutEngine::SequenceClassic
    );
    assert_eq!(layout_engine(&DiagramKind::Yaml), LayoutEngine::Json);
    assert_eq!(layout_engine(&DiagramKind::Latex), LayoutEngine::Math);
    assert_eq!(layout_engine(&DiagramKind::UseCase), LayoutEngine::UseCaseAsComponent);
    assert_eq!(layout_engine(&DiagramKind::Regex), LayoutEngine::RegexAsEbnf);
}

#[test]
fn layout_tags_result_and_passes_errors() {
    let r: Result<DiagramLayout<u32>, String> = layout(&DiagramKind::UseCase, Ok(7));
    assert_eq!(r, Ok(DiagramLayout::Component(7)));
    let r: Result<DiagramLayout<u32>, String> = layout(&DiagramKind::Yaml, Ok(1));
    assert_eq!(r, Ok(DiagramLayout::Yaml(1)));
    let r: Result<DiagramLayout<u32>, String> = layout(&DiagramKind::Activity, Err("bad".to_string()));
    assert_eq!(r, Err("bad".to_string()));
}
