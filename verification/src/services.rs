//! What the application asks of a loaded model for traceability: its elements
//! as documents keyed by handle, the impact of an element, and the documents
//! linked to and from an element.
use vstd::prelude::*;
use crate::json::{JsonValue, JsonView, entries_get, entries_insert, entries_set, find_key,
    jview_entries, jview_items, lemma_jview_entries, lemma_jview_items};
use crate::model::{ArcadiaElement, ProjectModel, element_json, flatten_layers};
use crate::text::owned;
use crate::traceability::{ImpactAnalyzer, ImpactError, ImpactReport, LinkGraph, Tracer, WalkState,
    get_or_empty, items_view, neighbours, trace_docs, visit};
use crate::vocabulary::VocabularyRegistry;

verus! {

/// The documents of the first `n` elements, keyed by handle: an element takes
/// the place of an earlier one with the same handle.
pub open spec fn model_docs(els: Seq<ArcadiaElement>, n: int) -> Seq<(Seq<char>, JsonView)>
    decreases n,
{
    if n <= 0 || n > els.len() {
        Seq::empty()
    } else {
        entries_set(model_docs(els, n - 1), els[n - 1].handle@, element_json(els[n - 1]))
    }
}

/// The documents of every element of a model, keyed by handle.
pub open spec fn all_model_docs(model: ProjectModel) -> Seq<(Seq<char>, JsonView)> {
    let els = flatten_layers(model.layers@);
    model_docs(els, els.len() as int)
}

/// The traceability graph of a model, its elements read as documents.
pub open spec fn model_graph(reg: &VocabularyRegistry, model: ProjectModel) -> LinkGraph {
    trace_docs(reg.current(), flatten_layers(model.layers@).map_values(|e: ArcadiaElement| element_json(e)))
}

/// The documents under the identifiers, in order, skipping those with none.
pub open spec fn docs_under(ids: Seq<Seq<char>>, docs: Seq<(Seq<char>, JsonView)>) -> Seq<JsonView>
    decreases ids.len(),
{
    if ids.len() == 0 {
        Seq::empty()
    } else {
        let prev = docs_under(ids.drop_last(), docs);
        match entries_get(docs, ids.last()) {
            Some(d) => prev.push(d),
            None => prev,
        }
    }
}

/// The neighbourhood of an element: its identifier, then the documents of the
/// elements that link to it, then those of the elements it links to.
pub open spec fn neighbourhood(g: LinkGraph, docs: Seq<(Seq<char>, JsonView)>, id: Seq<char>) -> JsonView {
    JsonView::Object(
        seq![
            ("center_id"@, JsonView::Str(id)),
            ("upstream"@, JsonView::Array(docs_under(get_or_empty(g.up, id), docs))),
            ("downstream"@, JsonView::Array(docs_under(get_or_empty(g.down, id), docs))),
        ],
    )
}

/// The documents of every element of the model, keyed by handle.
pub fn get_model_docs(model: &ProjectModel) -> (r: Vec<(String, JsonValue)>)
    ensures
        jview_entries(r@) == all_model_docs(*model),
{
    let ghost els = flatten_layers(model.layers@);
    let all = model.all_elements();
    let mut docs: Vec<(String, JsonValue)> = Vec::new();
    proof {
        lemma_jview_entries(docs@);
        assert(jview_entries(docs@) =~= Seq::<(Seq<char>, JsonView)>::empty());
    }
    let mut i: usize = 0;
    while i < all.len()
        invariant
            els == flatten_layers(model.layers@),
            i <= all@.len(),
            all@.len() == els.len(),
            forall|m: int| 0 <= m < all@.len() ==> *all@[m] == els[m],
            jview_entries(docs@) == model_docs(els, i as int),
        decreases all@.len() - i,
    {
        let el = all[i];
        let doc = el.to_json();
        entries_insert(&mut docs, owned(el.handle.as_str()), doc);
        i = i + 1;
    }
    docs
}

/// The impact of `element_id` in the traceability graph of the model, up to
/// `depth` links away (see `ImpactAnalyzer::analyze`).
pub fn analyze_impact(model: &ProjectModel, reg: &VocabularyRegistry, element_id: &str, depth: usize) -> (r: Result<
    ImpactReport,
    ImpactError,
>)
    ensures
        ({
            let g = model_graph(reg, *model);
            match r {
                Ok(rep) => {
                    &&& neighbours(g, element_id@).len() > 0
                    &&& rep.root_element_id@ == element_id@
                    &&& items_view(rep.impacted_elements@) == visit(
                        g,
                        element_id@,
                        0,
                        depth as int,
                        WalkState { visited: Seq::empty(), found: Seq::empty() },
                    ).found
                },
                Err(_) => neighbours(g, element_id@).len() == 0,
            }
        }),
{
    let tracer = Tracer::from_legacy_model(model, reg);
    let analyzer = ImpactAnalyzer::new(tracer);
    analyzer.analyze(element_id, depth)
}

/// The documents under the identifiers, in order, skipping those with none.
fn resolve_docs(ids: &Vec<String>, docs: &Vec<(String, JsonValue)>) -> (r: Vec<JsonValue>)
    ensures
        jview_items(r@) == docs_under(crate::model::texts(ids@), jview_entries(docs@)),
{
    let ghost ts = crate::model::texts(ids@);
    let ghost dv = jview_entries(docs@);
    proof {
        lemma_jview_entries(docs@);
    }
    let mut out: Vec<JsonValue> = Vec::new();
    proof {
        lemma_jview_items(out@);
        assert(ts.take(0) =~= Seq::<Seq<char>>::empty());
        assert(jview_items(out@) =~= Seq::<JsonView>::empty());
    }
    let mut i: usize = 0;
    while i < ids.len()
        invariant
            i <= ids@.len(),
            ts == crate::model::texts(ids@),
            ts.len() == ids@.len(),
            dv == jview_entries(docs@),
            dv.len() == docs@.len(),
            forall|j: int| 0 <= j < docs@.len() ==> #[trigger] dv[j] == (docs@[j].0@, docs@[j].1@),
            jview_items(out@) == docs_under(ts.take(i as int), dv),
        decreases ids@.len() - i,
    {
        assert(ts.take(i as int + 1).drop_last() =~= ts.take(i as int));
        assert(ts.take(i as int + 1).last() == ids@[i as int]@);
        let ghost before = out@;
        match find_key(docs, ids[i].as_str()) {
            Some(k) => {
                out.push(docs[k].1.duplicate());
                proof {
                    lemma_jview_items(before);
                    lemma_jview_items(out@);
                    assert(jview_items(out@) =~= jview_items(before).push(docs@[k as int].1@));
                }
            },
            None => {},
        }
        i = i + 1;
    }
    assert(ts.take(ids@.len() as int) =~= ts);
    out
}

/// The element `element_id` with the documents of the elements linked to it
/// and from it (see `neighbourhood`).
pub fn get_element_neighbors(model: &ProjectModel, reg: &VocabularyRegistry, element_id: &str) -> (r: JsonValue)
    ensures
        r@ == neighbourhood(model_graph(reg, *model), all_model_docs(*model), element_id@),
{
    let docs = get_model_docs(model);
    let tracer = Tracer::from_legacy_model(model, reg);
    let upstream_ids = tracer.get_upstream_ids(element_id);
    let downstream_ids = tracer.get_downstream_ids(element_id);
    let upstream = resolve_docs(&upstream_ids, &docs);
    let downstream = resolve_docs(&downstream_ids, &docs);
    let mut es: Vec<(String, JsonValue)> = Vec::new();
    es.push((owned("center_id"), JsonValue::String(owned(element_id))));
    es.push((owned("upstream"), JsonValue::Array(upstream)));
    es.push((owned("downstream"), JsonValue::Array(downstream)));
    proof {
        lemma_jview_entries(es@);
        assert(jview_entries(es@) =~= seq![
            ("center_id"@, JsonView::Str(element_id@)),
            ("upstream"@, JsonView::Array(docs_under(get_or_empty(model_graph(reg, *model).up, element_id@), all_model_docs(*model)))),
            ("downstream"@, JsonView::Array(docs_under(get_or_empty(model_graph(reg, *model).down, element_id@), all_model_docs(*model)))),
        ]);
    }
    JsonValue::Object(es)
}

} // verus!
