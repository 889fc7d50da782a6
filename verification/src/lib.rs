//! Layout of parsed diagrams.
//!
//! The library holds the decisions of the diagram layout that do not depend
//! on measuring text: which layout engine a diagram goes to, the text
//! handling of names and labels, the hide/show rules of class diagrams, the
//! graph that a class diagram hands to the graph layout, the nodes, edges,
//! grouping and ordering decisions of activity diagrams, and the greedy
//! wrapping of note text around a width measure that the caller supplies.

use vstd::prelude::*;

pub mod activity;
pub mod activity_graph;
pub mod activity_scan;
pub mod class_diagram;
pub mod class_graph;
pub mod markup;
pub mod text;
pub mod wrap;

pub use text::NEWLINE_CHAR;

verus! {

/// The kind of a parsed diagram, as far as the choice of layout goes.
#[derive(Debug, Clone, Copy, PartialEq, Eq, Structural)]
pub enum DiagramKind {
    Bpm,
    Class,
    /// A sequence diagram; `teoz` selects the teoz layout.
    Sequence { teoz: bool },
    Activity,
    State,
    Component,
    Chart,
    Ditaa,
    Erd,
    Files,
    Flow,
    Gantt,
    Json,
    Mindmap,
    Nwdiag,
    Salt,
    Timing,
    Wbs,
    Yaml,
    UseCase,
    Dot,
    Packet,
    Git,
    Regex,
    Ebnf,
    Pie,
    Board,
    Chronology,
    Hcl,
    Wire,
    Math,
    Latex,
    Creole,
    Def,
}

/// The layout routine a diagram is handed to.
#[derive(Debug, Clone, Copy, PartialEq, Eq, Structural)]
pub enum LayoutEngine {
    Bpm,
    Class,
    /// The teoz sequence layout.
    SequenceTeoz,
    /// The classic sequence layout.
    SequenceClassic,
    Activity,
    State,
    Component,
    Chart,
    Ditaa,
    Erd,
    Files,
    Flow,
    Gantt,
    Json,
    Mindmap,
    Nwdiag,
    Salt,
    Timing,
    Wbs,
    /// Use-case diagrams are converted to component diagrams and laid out as such.
    UseCaseAsComponent,
    /// DOT sources get a placeholder graph of one node.
    DotPlaceholder,
    Packet,
    Git,
    /// Regex diagrams are converted to EBNF expressions and laid out as such.
    RegexAsEbnf,
    Ebnf,
    Pie,
    Board,
    Chronology,
    Hcl,
    Wire,
    Math,
    Creole,
    /// Definition diagrams use the math layout's definition routine.
    MathDef,
}

/// The result of laying out a diagram: the layout of the engine that ran,
/// tagged with the kind of layout it is.
#[derive(Debug, Clone, PartialEq)]
pub enum DiagramLayout<L> {
    Bpm(L),
    Class(L),
    Sequence(L),
    Activity(L),
    State(L),
    Component(L),
    Board(L),
    Chart(L),
    Chronology(L),
    Ditaa(L),
    Erd(L),
    Files(L),
    Flow(L),
    Gantt(L),
    Hcl(L),
    Json(L),
    Mindmap(L),
    Nwdiag(L),
    Pie(L),
    Salt(L),
    Timing(L),
    Wbs(L),
    Yaml(L),
    Dot(L),
    UseCase(L),
    Packet(L),
    Git(L),
    Regex(L),
    Ebnf(L),
    Wire(L),
    Math(L),
    Latex(L),
    Creole(L),
    Def(L),
}

/// The engine that lays out a diagram of kind `kind`.
pub open spec fn engine_of(kind: DiagramKind) -> LayoutEngine {
    match kind {
        DiagramKind::Bpm => LayoutEngine::Bpm,
        DiagramKind::Class => LayoutEngine::Class,
        DiagramKind::Sequence { teoz } => if teoz {
            LayoutEngine::SequenceTeoz
        } else {
            LayoutEngine::SequenceClassic
        },
        DiagramKind::Activity => LayoutEngine::Activity,
        DiagramKind::State => LayoutEngine::State,
        DiagramKind::Component => LayoutEngine::Component,
        DiagramKind::Chart => LayoutEngine::Chart,
        DiagramKind::Ditaa => LayoutEngine::Ditaa,
        DiagramKind::Erd => LayoutEngine::Erd,
        DiagramKind::Files => LayoutEngine::Files,
        DiagramKind::Flow => LayoutEngine::Flow,
        DiagramKind::Gantt => LayoutEngine::Gantt,
        DiagramKind::Json => LayoutEngine::Json,
        DiagramKind::Mindmap => LayoutEngine::Mindmap,
        DiagramKind::Nwdiag => LayoutEngine::Nwdiag,
        DiagramKind::Salt => LayoutEngine::Salt,
        DiagramKind::Timing => LayoutEngine::Timing,
        DiagramKind::Wbs => LayoutEngine::Wbs,
        DiagramKind::Yaml => LayoutEngine::Json,
        DiagramKind::UseCase => LayoutEngine::UseCaseAsComponent,
        DiagramKind::Dot => LayoutEngine::DotPlaceholder,
        DiagramKind::Packet => LayoutEngine::Packet,
        DiagramKind::Git => LayoutEngine::Git,
        DiagramKind::Regex => LayoutEngine::RegexAsEbnf,
        DiagramKind::Ebnf => LayoutEngine::Ebnf,
        DiagramKind::Pie => LayoutEngine::Pie,
        DiagramKind::Board => LayoutEngine::Board,
        DiagramKind::Chronology => LayoutEngine::Chronology,
        DiagramKind::Hcl => LayoutEngine::Hcl,
        DiagramKind::Wire => LayoutEngine::Wire,
        DiagramKind::Math => LayoutEngine::Math,
        DiagramKind::Latex => LayoutEngine::Math,
        DiagramKind::Creole => LayoutEngine::Creole,
        DiagramKind::Def => LayoutEngine::MathDef,
    }
}

/// The diagram kind an engine is named after, for the engines that bear the
/// name of one kind; the converting and placeholder engines bear none.
pub open spec fn engine_named_for(e: LayoutEngine) -> Option<DiagramKind> {
    match e {
        LayoutEngine::Bpm => Some(DiagramKind::Bpm),
        LayoutEngine::Class => Some(DiagramKind::Class),
        LayoutEngine::SequenceTeoz => Some(DiagramKind::Sequence { teoz: true }),
        LayoutEngine::SequenceClassic => Some(DiagramKind::Sequence { teoz: false }),
        LayoutEngine::Activity => Some(DiagramKind::Activity),
        LayoutEngine::State => Some(DiagramKind::State),
        LayoutEngine::Component => Some(DiagramKind::Component),
        LayoutEngine::Chart => Some(DiagramKind::Chart),
        LayoutEngine::Ditaa => Some(DiagramKind::Ditaa),
        LayoutEngine::Erd => Some(DiagramKind::Erd),
        LayoutEngine::Files => Some(DiagramKind::Files),
        LayoutEngine::Flow => Some(DiagramKind::Flow),
        LayoutEngine::Gantt => Some(DiagramKind::Gantt),
        LayoutEngine::Json => Some(DiagramKind::Json),
        LayoutEngine::Mindmap => Some(DiagramKind::Mindmap),
        LayoutEngine::Nwdiag => Some(DiagramKind::Nwdiag),
        LayoutEngine::Salt => Some(DiagramKind::Salt),
        LayoutEngine::Timing => Some(DiagramKind::Timing),
        LayoutEngine::Wbs => Some(DiagramKind::Wbs),
        LayoutEngine::UseCaseAsComponent => None,
        LayoutEngine::DotPlaceholder => None,
        LayoutEngine::Packet => Some(DiagramKind::Packet),
        LayoutEngine::Git => Some(DiagramKind::Git),
        LayoutEngine::RegexAsEbnf => None,
        LayoutEngine::Ebnf => Some(DiagramKind::Ebnf),
        LayoutEngine::Pie => Some(DiagramKind::Pie),
        LayoutEngine::Board => Some(DiagramKind::Board),
        LayoutEngine::Chronology => Some(DiagramKind::Chronology),
        LayoutEngine::Hcl => Some(DiagramKind::Hcl),
        LayoutEngine::Wire => Some(DiagramKind::Wire),
        LayoutEngine::Math => Some(DiagramKind::Math),
        LayoutEngine::Creole => Some(DiagramKind::Creole),
        LayoutEngine::MathDef => None,
    }
}

/// The kinds that borrow another kind's engine or a converting one.
pub open spec fn borrows_engine(kind: DiagramKind) -> bool {
    kind is Yaml || kind is Latex || kind is UseCase || kind is Regex || kind is Dot || kind is Def
}

/// Every diagram goes to the engine named after its own kind (a sequence
/// diagram to the teoz or the classic one as it asks), except that YAML
/// shares the JSON engine and LaTeX the math engine, and use-case, regex,
/// DOT and definition diagrams go to their converting engines; so no two
/// kinds of their own share an engine.
pub proof fn lemma_engine_of_own_kind(kind: DiagramKind, other: DiagramKind)
    ensures
        !borrows_engine(kind) ==> engine_named_for(engine_of(kind)) == Some(kind),
        !borrows_engine(kind) && !borrows_engine(other) && engine_of(kind) == engine_of(other)
            ==> kind == other,
        kind is Yaml ==> engine_of(kind) == LayoutEngine::Json,
        kind is Latex ==> engine_of(kind) == LayoutEngine::Math,
        kind is UseCase ==> engine_of(kind) == LayoutEngine::UseCaseAsComponent,
        kind is Regex ==> engine_of(kind) == LayoutEngine::RegexAsEbnf,
        kind is Dot ==> engine_of(kind) == LayoutEngine::DotPlaceholder,
        kind is Def ==> engine_of(kind) == LayoutEngine::MathDef,
{
}

/// The layout of a diagram of kind `kind` whose engine produced `l`.
pub open spec fn wrap_spec<L>(kind: DiagramKind, l: L) -> DiagramLayout<L> {
    match kind {
        DiagramKind::Bpm => DiagramLayout::Bpm(l),
        DiagramKind::Class => DiagramLayout::Class(l),
        DiagramKind::Sequence { .. } => DiagramLayout::Sequence(l),
        DiagramKind::Activity => DiagramLayout::Activity(l),
        DiagramKind::State => DiagramLayout::State(l),
        DiagramKind::Component => DiagramLayout::Component(l),
        DiagramKind::Chart => DiagramLayout::Chart(l),
        DiagramKind::Ditaa => DiagramLayout::Ditaa(l),
        DiagramKind::Erd => DiagramLayout::Erd(l),
        DiagramKind::Files => DiagramLayout::Files(l),
        DiagramKind::Flow => DiagramLayout::Flow(l),
        DiagramKind::Gantt => DiagramLayout::Gantt(l),
        DiagramKind::Json => DiagramLayout::Json(l),
        DiagramKind::Mindmap => DiagramLayout::Mindmap(l),
        DiagramKind::Nwdiag => DiagramLayout::Nwdiag(l),
        DiagramKind::Salt => DiagramLayout::Salt(l),
        DiagramKind::Timing => DiagramLayout::Timing(l),
        DiagramKind::Wbs => DiagramLayout::Wbs(l),
        DiagramKind::Yaml => DiagramLayout::Yaml(l),
        DiagramKind::UseCase => DiagramLayout::Component(l),
        DiagramKind::Dot => DiagramLayout::Dot(l),
        DiagramKind::Packet => DiagramLayout::Packet(l),
        DiagramKind::Git => DiagramLayout::Git(l),
        DiagramKind::Regex => DiagramLayout::Regex(l),
        DiagramKind::Ebnf => DiagramLayout::Ebnf(l),
        DiagramKind::Pie => DiagramLayout::Pie(l),
        DiagramKind::Board => DiagramLayout::Board(l),
        DiagramKind::Chronology => DiagramLayout::Chronology(l),
        DiagramKind::Hcl => DiagramLayout::Hcl(l),
        DiagramKind::Wire => DiagramLayout::Wire(l),
        DiagramKind::Math => DiagramLayout::Math(l),
        DiagramKind::Latex => DiagramLayout::Latex(l),
        DiagramKind::Creole => DiagramLayout::Creole(l),
        DiagramKind::Def => DiagramLayout::Def(l),
    }
}

/// The diagram kind a layout is tagged with (a sequence layout does not
/// say which sequence engine made it).
pub open spec fn layout_tag_kind<L>(d: DiagramLayout<L>) -> Option<DiagramKind> {
    match d {
        DiagramLayout::Sequence(_) => None,
        DiagramLayout::Bpm(_) => Some(DiagramKind::Bpm),
        DiagramLayout::Class(_) => Some(DiagramKind::Class),
        DiagramLayout::Activity(_) => Some(DiagramKind::Activity),
        DiagramLayout::State(_) => Some(DiagramKind::State),
        DiagramLayout::Component(_) => Some(DiagramKind::Component),
        DiagramLayout::Board(_) => Some(DiagramKind::Board),
        DiagramLayout::Chart(_) => Some(DiagramKind::Chart),
        DiagramLayout::Chronology(_) => Some(DiagramKind::Chronology),
        DiagramLayout::Ditaa(_) => Some(DiagramKind::Ditaa),
        DiagramLayout::Erd(_) => Some(DiagramKind::Erd),
        DiagramLayout::Files(_) => Some(DiagramKind::Files),
        DiagramLayout::Flow(_) => Some(DiagramKind::Flow),
        DiagramLayout::Gantt(_) => Some(DiagramKind::Gantt),
        DiagramLayout::Hcl(_) => Some(DiagramKind::Hcl),
        DiagramLayout::Json(_) => Some(DiagramKind::Json),
        DiagramLayout::Mindmap(_) => Some(DiagramKind::Mindmap),
        DiagramLayout::Nwdiag(_) => Some(DiagramKind::Nwdiag),
        DiagramLayout::Pie(_) => Some(DiagramKind::Pie),
        DiagramLayout::Salt(_) => Some(DiagramKind::Salt),
        DiagramLayout::Timing(_) => Some(DiagramKind::Timing),
        DiagramLayout::Wbs(_) => Some(DiagramKind::Wbs),
        DiagramLayout::Yaml(_) => Some(DiagramKind::Yaml),
        DiagramLayout::Dot(_) => Some(DiagramKind::Dot),
        DiagramLayout::UseCase(_) => Some(DiagramKind::UseCase),
        DiagramLayout::Packet(_) => Some(DiagramKind::Packet),
        DiagramLayout::Git(_) => Some(DiagramKind::Git),
        DiagramLayout::Regex(_) => Some(DiagramKind::Regex),
        DiagramLayout::Ebnf(_) => Some(DiagramKind::Ebnf),
        DiagramLayout::Wire(_) => Some(DiagramKind::Wire),
        DiagramLayout::Math(_) => Some(DiagramKind::Math),
        DiagramLayout::Latex(_) => Some(DiagramKind::Latex),
        DiagramLayout::Creole(_) => Some(DiagramKind::Creole),
        DiagramLayout::Def(_) => Some(DiagramKind::Def),
    }
}

/// The layout a tagged layout holds.
pub open spec fn layout_payload<L>(d: DiagramLayout<L>) -> L {
    match d {
        DiagramLayout::Bpm(l) => l,
        DiagramLayout::Class(l) => l,
        DiagramLayout::Activity(l) => l,
        DiagramLayout::State(l) => l,
        DiagramLayout::Component(l) => l,
        DiagramLayout::Board(l) => l,
        DiagramLayout::Chart(l) => l,
        DiagramLayout::Chronology(l) => l,
        DiagramLayout::Ditaa(l) => l,
        DiagramLayout::Erd(l) => l,
        DiagramLayout::Files(l) => l,
        DiagramLayout::Flow(l) => l,
        DiagramLayout::Gantt(l) => l,
        DiagramLayout::Hcl(l) => l,
        DiagramLayout::Json(l) => l,
        DiagramLayout::Mindmap(l) => l,
        DiagramLayout::Nwdiag(l) => l,
        DiagramLayout::Pie(l) => l,
        DiagramLayout::Salt(l) => l,
        DiagramLayout::Timing(l) => l,
        DiagramLayout::Wbs(l) => l,
        DiagramLayout::Yaml(l) => l,
        DiagramLayout::Dot(l) => l,
        DiagramLayout::UseCase(l) => l,
        DiagramLayout::Packet(l) => l,
        DiagramLayout::Git(l) => l,
        DiagramLayout::Regex(l) => l,
        DiagramLayout::Ebnf(l) => l,
        DiagramLayout::Wire(l) => l,
        DiagramLayout::Math(l) => l,
        DiagramLayout::Latex(l) => l,
        DiagramLayout::Creole(l) => l,
        DiagramLayout::Def(l) => l,
        DiagramLayout::Sequence(l) => l,
    }
}

/// A computed layout is handed back unchanged, tagged with the kind of its
/// diagram; only a use-case diagram is tagged as the component diagram it
/// was converted to.
pub proof fn lemma_layout_tag_names_its_kind<L>(kind: DiagramKind, l: L)
    ensures
        layout_payload(wrap_spec(kind, l)) == l,
        kind is Sequence <==> wrap_spec(kind, l) is Sequence,
        !(kind is Sequence) && !(kind is UseCase) ==> layout_tag_kind(wrap_spec(kind, l)) == Some(kind),
        kind is UseCase ==> layout_tag_kind(wrap_spec(kind, l)) == Some(DiagramKind::Component),
{
}

/// Chooses the layout routine of a diagram: each kind has its own, except
/// that YAML shares the JSON layout, LaTeX the math layout, use-case diagrams
/// go through the component layout, regex diagrams through the EBNF layout,
/// and sequence diagrams use the teoz layout when asked to.
pub fn layout_engine(kind: &DiagramKind) -> (e: LayoutEngine)
    ensures
        e == engine_of(*kind),
{
    match kind {
        DiagramKind::Bpm => LayoutEngine::Bpm,
        DiagramKind::Class => LayoutEngine::Class,
        DiagramKind::Sequence { teoz } => if *teoz {
            LayoutEngine::SequenceTeoz
        } else {
            LayoutEngine::SequenceClassic
        },
        DiagramKind::Activity => LayoutEngine::Activity,
        DiagramKind::State => LayoutEngine::State,
        DiagramKind::Component => LayoutEngine::Component,
        DiagramKind::Chart => LayoutEngine::Chart,
        DiagramKind::Ditaa => LayoutEngine::Ditaa,
        DiagramKind::Erd => LayoutEngine::Erd,
        DiagramKind::Files => LayoutEngine::Files,
        DiagramKind::Flow => LayoutEngine::Flow,
        DiagramKind::Gantt => LayoutEngine::Gantt,
        DiagramKind::Json => LayoutEngine::Json,
        DiagramKind::Mindmap => LayoutEngine::Mindmap,
        DiagramKind::Nwdiag => LayoutEngine::Nwdiag,
        DiagramKind::Salt => LayoutEngine::Salt,
        DiagramKind::Timing => LayoutEngine::Timing,
        DiagramKind::Wbs => LayoutEngine::Wbs,
        DiagramKind::Yaml => LayoutEngine::Json,
        DiagramKind::UseCase => LayoutEngine::UseCaseAsComponent,
        DiagramKind::Dot => LayoutEngine::DotPlaceholder,
        DiagramKind::Packet => LayoutEngine::Packet,
        DiagramKind::Git => LayoutEngine::Git,
        DiagramKind::Regex => LayoutEngine::RegexAsEbnf,
        DiagramKind::Ebnf => LayoutEngine::Ebnf,
        DiagramKind::Pie => LayoutEngine::Pie,
        DiagramKind::Board => LayoutEngine::Board,
        DiagramKind::Chronology => LayoutEngine::Chronology,
        DiagramKind::Hcl => LayoutEngine::Hcl,
        DiagramKind::Wire => LayoutEngine::Wire,
        DiagramKind::Math => LayoutEngine::Math,
        DiagramKind::Latex => LayoutEngine::Math,
        DiagramKind::Creole => LayoutEngine::Creole,
        DiagramKind::Def => LayoutEngine::MathDef,
    }
}

/// Perform layout on a diagram: `computed` is what the engine chosen by
/// `layout_engine(kind)` returned.  An engine error is passed on unchanged;
/// a result is tagged with the diagram's layout kind (a use-case diagram
/// yields a component layout).
pub fn layout<L, E>(kind: &DiagramKind, computed: Result<L, E>) -> (r: Result<DiagramLayout<L>, E>)
    ensures
        r == (match computed {
            Ok(l) => Ok(wrap_spec(*kind, l)),
            Err(e) => Err(e),
        }),
{
    let l = match computed {
        Ok(l) => l,
        Err(e) => {
            return Err(e);
        },
    };
    Ok(
        match kind {
            DiagramKind::Bpm => DiagramLayout::Bpm(l),
            DiagramKind::Class => DiagramLayout::Class(l),
            DiagramKind::Sequence { .. } => DiagramLayout::Sequence(l),
            DiagramKind::Activity => DiagramLayout::Activity(l),
            DiagramKind::State => DiagramLayout::State(l),
            DiagramKind::Component => DiagramLayout::Component(l),
            DiagramKind::Chart => DiagramLayout::Chart(l),
            DiagramKind::Ditaa => DiagramLayout::Ditaa(l),
            DiagramKind::Erd => DiagramLayout::Erd(l),
            DiagramKind::Files => DiagramLayout::Files(l),
            DiagramKind::Flow => DiagramLayout::Flow(l),
            DiagramKind::Gantt => DiagramLayout::Gantt(l),
            DiagramKind::Json => DiagramLayout::Json(l),
            DiagramKind::Mindmap => DiagramLayout::Mindmap(l),
            DiagramKind::Nwdiag => DiagramLayout::Nwdiag(l),
            DiagramKind::Salt => DiagramLayout::Salt(l),
            DiagramKind::Timing => DiagramLayout::Timing(l),
            DiagramKind::Wbs => DiagramLayout::Wbs(l),
            DiagramKind::Yaml => DiagramLayout::Yaml(l),
            DiagramKind::UseCase => DiagramLayout::Component(l),
            DiagramKind::Dot => DiagramLayout::Dot(l),
            DiagramKind::Packet => DiagramLayout::Packet(l),
            DiagramKind::Git => DiagramLayout::Git(l),
            DiagramKind::Regex => DiagramLayout::Regex(l),
            DiagramKind::Ebnf => DiagramLayout::Ebnf(l),
            DiagramKind::Pie => DiagramLayout::Pie(l),
            DiagramKind::Board => DiagramLayout::Board(l),
            DiagramKind::Chronology => DiagramLayout::Chronology(l),
            DiagramKind::Hcl => DiagramLayout::Hcl(l),
            DiagramKind::Wire => DiagramLayout::Wire(l),
            DiagramKind::Math => DiagramLayout::Math(l),
            DiagramKind::Latex => DiagramLayout::Latex(l),
            DiagramKind::Creole => DiagramLayout::Creole(l),
            DiagramKind::Def => DiagramLayout::Def(l),
        },
    )
}

} // verus!
