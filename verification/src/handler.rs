//! Request-handling decisions: path routing, model extraction, dispatch
//! planning over the selector, validation of the generate endpoint, and
//! the merged model listing.
//!
//! Whatever reads a JSON document goes through the trusted wrappers of
//! `jsonv`; every decision taken on what came back is verified for every
//! possible outcome.

use vstd::prelude::*;
use vstd::string::{StrSliceExecFns, StringExecFns};
use crate::jsonv::{
    json_string_field, json_object_shape, json_models_texts, json_text_name_field, parse_err_of,
    string_field_of, is_object_of, field_present_of, models_items_of, text_name_field_of,
};
use crate::registry::{
    Registry, ModelConfig, ServerSnapshot, seq_has_name, snap_has_name, distinct_names,
    spec_dedup, dedup_models, lemma_dedup_names, lemma_dedup_provenance,
};
use crate::select::{SelOpt, select_servers, spec_selected_len, count_server_cand, Tier,
    selection_covered, addresses_from, lemma_covered_addresses};

verus! {

broadcast use vstd::string::group_string_axioms;

/// The balancer's routes.
#[derive(Debug, Clone, Copy, PartialEq, Eq, Structural)]
pub enum Route {
    Root,
    Tags,
    Show,
    Generate,
    Chat,
    Unknown,
}

/// Maps a request path to its route; anything unknown gets the
/// not-implemented reply.
pub fn route_of(path: &str) -> (r: Route)
    ensures
        r == Route::Root <==> path@ == "/"@,
        r == Route::Tags <==> path@ == "/api/tags"@,
        r == Route::Show <==> path@ == "/api/show"@,
        r == Route::Generate <==> path@ == "/api/generate"@,
        r == Route::Chat <==> path@ == "/api/chat"@,
{
    proof {
        reveal_strlit("/");
        reveal_strlit("/api/tags");
        reveal_strlit("/api/show");
        reveal_strlit("/api/generate");
        reveal_strlit("/api/chat");
        assert("/"@.len() == 1 && "/api/tags"@.len() == 9 && "/api/show"@.len() == 9
            && "/api/generate"@.len() == 13 && "/api/chat"@.len() == 9);
        assert("/api/tags"@ != "/api/show"@) by {
            assert("/api/tags"@.index(5) == 't');
            assert("/api/show"@.index(5) == 's');
        }
        assert("/api/tags"@ != "/api/chat"@) by {
            assert("/api/tags"@.index(5) == 't');
            assert("/api/chat"@.index(5) == 'c');
        }
        assert("/api/show"@ != "/api/chat"@) by {
            assert("/api/show"@.index(5) == 's');
            assert("/api/chat"@.index(5) == 'c');
        }
    }
    if crate::strutil::str_eq(path, "/") {
        Route::Root
    } else if crate::strutil::str_eq(path, "/api/tags") {
        Route::Tags
    } else if crate::strutil::str_eq(path, "/api/show") {
        Route::Show
    } else if crate::strutil::str_eq(path, "/api/generate") {
        Route::Generate
    } else if crate::strutil::str_eq(path, "/api/chat") {
        Route::Chat
    } else {
        Route::Unknown
    }
}

/// The liveness reply on the root path.
pub fn root_message() -> (m: String)
    ensures
        m@ == "Ollama is running"@,
{
    String::from_str("Ollama is running")
}

/// The reply body message for an unknown path.
pub fn not_implemented_message(path: &str) -> (m: String)
    ensures
        m@ == "Endpoint "@ + path@ + " is not implemented"@,
{
    let mut m = String::from_str("Endpoint ");
    m.append(path);
    m.append(" is not implemented");
    m
}

/// The error message when the selector comes back empty.
pub fn no_servers_message() -> (m: String)
    ensures
        m@ == "No available servers"@,
{
    String::from_str("No available servers")
}

/// The error message when every racer failed.
pub fn race_failed_message() -> (m: String)
    ensures
        m@ == "All parallel requests failed"@,
{
    String::from_str("All parallel requests failed")
}

/// The error message when every sequential try failed.
pub fn sequential_failed_message() -> (m: String)
    ensures
        m@ == "All chosen backends failed"@,
{
    String::from_str("All chosen backends failed")
}

/// The error message for a body without a usable model name.
pub fn missing_model_message() -> (m: String)
    ensures
        m@ == "Request body must contain a 'model' field"@,
{
    String::from_str("Request body must contain a 'model' field")
}

/// The error message for an unparseable body, around the parser's own
/// words.
pub fn parse_error_message(detail: &str) -> (m: String)
    ensures
        m@ == "Error parsing request body: "@ + detail@,
{
    let mut m = String::from_str("Error parsing request body: ");
    m.append(detail);
    m
}

/// Pulls the "model" string out of a generation request body: the
/// document's string "model" field, the missing-model error when the
/// body parses without one, or the parse error's message.
pub fn extract_chat_model(body: &Vec<u8>) -> (r: Result<String, String>)
    ensures
        ({
            let pe = parse_err_of(body@);
            let mf = string_field_of(body@, "model"@);
            match r {
                Ok(m) => pe is None && mf == Some(m@),
                Err(e) => (pe matches Some(t) && e@ == "Error parsing request body: "@ + t) || (
                pe is None && mf is None && e@ == "Request body must contain a 'model' field"@),
            }
        }),
{
    match json_string_field(body, "model") {
        Err(e) => Err(parse_error_message(e.as_str())),
        Ok(Some(s)) => Ok(s),
        Ok(None) => Err(missing_model_message()),
    }
}

/// The model a show request names: its "model" field, falling back to
/// its "name" field when that is absent or empty, or nothing when both
/// fail.
pub open spec fn spec_show_model(mf: Option<Seq<char>>, nf: Option<Seq<char>>) -> Option<
    Seq<char>,
> {
    if mf matches Some(s) && s.len() > 0 {
        mf
    } else if nf matches Some(s) && s.len() > 0 {
        nf
    } else {
        None
    }
}

/// Pulls the model out of a show request body: the "model" field, or,
/// when that is absent or empty, the "name" field; the missing-model
/// error when both fail, or the parse error's message.
pub fn extract_show_model(body: &Vec<u8>) -> (r: Result<String, String>)
    ensures
        ({
            let pe = parse_err_of(body@);
            let sm = spec_show_model(
                string_field_of(body@, "model"@),
                string_field_of(body@, "name"@),
            );
            match r {
                Ok(m) => pe is None && sm == Some(m@),
                Err(e) => (pe matches Some(t) && e@ == "Error parsing request body: "@ + t) || (
                pe is None && sm is None && e@ == "Request body must contain a 'model' field"@),
            }
        }),
{
    let model: Option<String> = match json_string_field(body, "model") {
        Err(e) => {
            return Err(parse_error_message(e.as_str()));
        },
        Ok(f) => f,
    };
    let model: Option<String> = match model {
        Some(s) => if s.as_str().is_empty() {
            None
        } else {
            Some(s)
        },
        None => None,
    };
    match model {
        Some(s) => Ok(s),
        None => {
            match json_string_field(body, "name") {
                // The body parsed above, so no parse error can appear here.
                Err(e) => Err(parse_error_message(e.as_str())),
                Ok(Some(s)) => if s.as_str().is_empty() {
                    Err(missing_model_message())
                } else {
                    Ok(s)
                },
                Ok(None) => Err(missing_model_message()),
            }
        },
    }
}

/// What a dispatching endpoint decides before any upstream contact: the
/// request is malformed, no backend qualifies, or this shortlist runs.
#[derive(Debug)]
pub enum DispatchPlan {
    BadRequest(String),
    NoServers,
    Race(Vec<String>),
}

/// The selector options the dispatchers use: a shortlist of three to six,
/// with one slot reserved for resurrection when the caller's draw (one in
/// ten) fires.
pub fn dispatch_sel_opt() -> (o: SelOpt)
    ensures
        o.count.0 == 3usize && o.count.1 == 6usize && o.resurrect_n == 1usize,
{
    SelOpt { count: (3, 6), resurrect_n: 1 }
}

/// Turns an extracted model (or extraction error) into the dispatch plan:
/// an error is answered as a bad request; otherwise the selector runs,
/// and an empty shortlist means no server is available.
pub fn plan_dispatch(
    servers: &Registry,
    model: Result<String, String>,
    opts: &SelOpt,
    resurrect_roll: bool,
    draws: &Vec<u64>,
) -> (p: DispatchPlan)
    requires
        servers.wf(),
        opts.resurrect_n <= opts.count.0 <= opts.count.1,
        draws@.len() >= 3 * servers@.len(),
    ensures
        model matches Err(m) ==> p == DispatchPlan::BadRequest(m),
        model is Ok ==> ({
            let rn = if resurrect_roll {
                opts.resurrect_n as int
            } else {
                0int
            };
            let len = spec_selected_len(
                count_server_cand(servers@, (model->Ok_0)@, Tier::Active),
                count_server_cand(servers@, (model->Ok_0)@, Tier::Inactive),
                count_server_cand(servers@, (model->Ok_0)@, Tier::Resurrect),
                opts.count.0 - rn,
                opts.count.1 - rn,
                rn,
            );
            &&& !(p is BadRequest)
            &&& (p is NoServers <==> len == 0)
            &&& (p matches DispatchPlan::Race(list) ==> {
                &&& list@.len() == len
                &&& 1 <= list@.len() <= opts.count.1
                &&& (forall|t1: int, t2: int|
                    0 <= t1 < t2 < list@.len() ==> (#[trigger] list@[t1])@ != (
                    #[trigger] list@[t2])@)
                &&& selection_covered(servers@, (model->Ok_0)@, list@)
            })
        }),
{
    match model {
        Err(m) => DispatchPlan::BadRequest(m),
        Ok(m) => {
            let mstr: &str = m.as_str();
            let list = select_servers(servers, mstr, opts, resurrect_roll, draws);
            proof {
                assert((model->Ok_0)@ == mstr@);
                assert(selection_covered(servers@, (model->Ok_0)@, list@));
            }
            if list.len() == 0 {
                DispatchPlan::NoServers
            } else {
                DispatchPlan::Race(list)
            }
        },
    }
}

/// The full chat decision: extract the model from the body, then plan
/// the race. An unparseable body or one without a string "model" field
/// is a bad request carrying the exact message; otherwise the selector
/// decides, and a planned shortlist meets the selection contract for the
/// extracted model.
pub fn plan_chat(
    servers: &Registry,
    body: &Vec<u8>,
    opts: &SelOpt,
    resurrect_roll: bool,
    draws: &Vec<u64>,
) -> (p: DispatchPlan)
    requires
        servers.wf(),
        opts.resurrect_n <= opts.count.0 <= opts.count.1,
        draws@.len() >= 3 * servers@.len(),
    ensures
        p matches DispatchPlan::Race(list) ==> {
            &&& 1 <= list@.len() <= opts.count.1
            &&& (forall|t1: int, t2: int|
                0 <= t1 < t2 < list@.len() ==> (#[trigger] list@[t1])@ != (#[trigger] list@[t2])@)
            &&& addresses_from(servers@, list@)
        },
        ({
            let pe = parse_err_of(body@);
            let mf = string_field_of(body@, "model"@);
            &&& (pe matches Some(t) ==> (p matches DispatchPlan::BadRequest(m) && m@
                == "Error parsing request body: "@ + t))
            &&& ((pe is None && mf is None) ==> (p matches DispatchPlan::BadRequest(m) && m@
                == "Request body must contain a 'model' field"@))
            &&& ((pe is None && mf is Some) ==> ({
                let mv = mf->0;
                let rn = if resurrect_roll {
                    opts.resurrect_n as int
                } else {
                    0int
                };
                let len = spec_selected_len(
                    count_server_cand(servers@, mv, Tier::Active),
                    count_server_cand(servers@, mv, Tier::Inactive),
                    count_server_cand(servers@, mv, Tier::Resurrect),
                    opts.count.0 - rn,
                    opts.count.1 - rn,
                    rn,
                );
                &&& !(p is BadRequest)
                &&& (p is NoServers <==> len == 0)
                &&& (p matches DispatchPlan::Race(list) ==> list@.len() == len
                    && selection_covered(servers@, mv, list@))
            }))
        }),
{
    let em = extract_chat_model(body);
    let ghost em0 = em;
    let p = plan_dispatch(servers, em, opts, resurrect_roll, draws);
    proof {
        if p is Race {
            assert(em0 is Ok);
            lemma_covered_addresses(servers@, (em0->Ok_0)@, (p->Race_0)@);
        }
        if parse_err_of(body@) is None && string_field_of(body@, "model"@) is Some {
            assert(em0 is Ok && (em0->Ok_0)@ == string_field_of(body@, "model"@)->0);
        }
    }
    p
}

/// The full show decision: like the chat plan, with the show endpoint's
/// model-or-name fallback. An unparseable body, or one where both the
/// "model" and "name" fields are absent or empty, is a bad request with
/// the exact message; otherwise the selector decides for the model the
/// fallback rule picks.
pub fn plan_show(
    servers: &Registry,
    body: &Vec<u8>,
    opts: &SelOpt,
    resurrect_roll: bool,
    draws: &Vec<u64>,
) -> (p: DispatchPlan)
    requires
        servers.wf(),
        opts.resurrect_n <= opts.count.0 <= opts.count.1,
        draws@.len() >= 3 * servers@.len(),
    ensures
        p matches DispatchPlan::Race(list) ==> {
            &&& 1 <= list@.len() <= opts.count.1
            &&& (forall|t1: int, t2: int|
                0 <= t1 < t2 < list@.len() ==> (#[trigger] list@[t1])@ != (#[trigger] list@[t2])@)
            &&& addresses_from(servers@, list@)
        },
        ({
            let pe = parse_err_of(body@);
            let sm = spec_show_model(
                string_field_of(body@, "model"@),
                string_field_of(body@, "name"@),
            );
            &&& (pe matches Some(t) ==> (p matches DispatchPlan::BadRequest(m) && m@
                == "Error parsing request body: "@ + t))
            &&& ((pe is None && sm is None) ==> (p matches DispatchPlan::BadRequest(m) && m@
                == "Request body must contain a 'model' field"@))
            &&& ((pe is None && sm is Some) ==> ({
                let mv = sm->0;
                let rn = if resurrect_roll {
                    opts.resurrect_n as int
                } else {
                    0int
                };
                let len = spec_selected_len(
                    count_server_cand(servers@, mv, Tier::Active),
                    count_server_cand(servers@, mv, Tier::Inactive),
                    count_server_cand(servers@, mv, Tier::Resurrect),
                    opts.count.0 - rn,
                    opts.count.1 - rn,
                    rn,
                );
                &&& !(p is BadRequest)
                &&& (p is NoServers <==> len == 0)
                &&& (p matches DispatchPlan::Race(list) ==> list@.len() == len
                    && selection_covered(servers@, mv, list@))
            }))
        }),
{
    let em = extract_show_model(body);
    let ghost em0 = em;
    let p = plan_dispatch(servers, em, opts, resurrect_roll, draws);
    proof {
        if p is Race {
            assert(em0 is Ok);
            lemma_covered_addresses(servers@, (em0->Ok_0)@, (p->Race_0)@);
        }
        let sm = spec_show_model(
            string_field_of(body@, "model"@),
            string_field_of(body@, "name"@),
        );
        if parse_err_of(body@) is None && sm is Some {
            assert(em0 is Ok && (em0->Ok_0)@ == sm->0);
        }
    }
    p
}

/// What the generate endpoint's validation reads from the body.
#[derive(Debug)]
pub struct GenerateFields {
    pub is_object: bool,
    pub has_model: bool,
    pub has_prompt: bool,
    pub model: Option<String>,
    pub prompt: Option<String>,
}

/// The generate endpoint's verdict.
#[derive(Debug)]
pub enum GenerateVerdict {
    /// The body is not a JSON object.
    NotObject,
    /// The body lacks a model or prompt string.
    MissingFields,
    /// Only an empty prompt is supported so far.
    NonEmptyPrompt,
    /// Echo the model back.
    Echo(String),
}

/// Reads the generate endpoint's fields from the body: the document's
/// shape and its "model" and "prompt" strings; the error carries the
/// parse message for a 400 reply.
pub fn extract_generate_fields(body: &Vec<u8>) -> (r: Result<GenerateFields, String>)
    ensures
        ({
            let pe = parse_err_of(body@);
            match r {
                Err(e) => pe matches Some(t) && e@ == "Error parsing request body: "@ + t,
                Ok(f) => {
                    &&& pe is None
                    &&& f.is_object == is_object_of(body@)
                    &&& f.has_model == field_present_of(body@, "model"@)
                    &&& f.has_prompt == field_present_of(body@, "prompt"@)
                    &&& (match f.model {
                        Some(s) => string_field_of(body@, "model"@) == Some(s@),
                        None => string_field_of(body@, "model"@) is None,
                    })
                    &&& (match f.prompt {
                        Some(s) => string_field_of(body@, "prompt"@) == Some(s@),
                        None => string_field_of(body@, "prompt"@) is None,
                    })
                },
            }
        }),
{
    let (is_object, has_model, has_prompt) = match json_object_shape(body, "model", "prompt") {
        Err(e) => {
            return Err(parse_error_message(e.as_str()));
        },
        Ok(shape) => shape,
    };
    let model: Option<String> = match json_string_field(body, "model") {
        // The body parsed above, so no parse error can appear here.
        Err(e) => {
            return Err(parse_error_message(e.as_str()));
        },
        Ok(f) => f,
    };
    let prompt: Option<String> = match json_string_field(body, "prompt") {
        // The body parsed above, so no parse error can appear here.
        Err(e) => {
            return Err(parse_error_message(e.as_str()));
        },
        Ok(f) => f,
    };
    Ok(GenerateFields { is_object, has_model, has_prompt, model, prompt })
}

/// Validates a generate request: the body must be a JSON object carrying
/// string "model" and "prompt" fields, and only an empty prompt is
/// supported; a valid request echoes its model back.
pub fn judge_generate(f: GenerateFields) -> (v: GenerateVerdict)
    ensures
        !f.is_object ==> v == GenerateVerdict::NotObject,
        f.is_object && !(f.has_model && f.has_prompt) ==> v == GenerateVerdict::MissingFields,
        f.is_object && f.has_model && f.has_prompt && (f.model is None || f.prompt is None)
            ==> v == GenerateVerdict::MissingFields,
        (f.is_object && f.has_model && f.has_prompt && f.model is Some && f.prompt is Some)
            ==> (if (f.prompt->0)@.len() > 0 {
            v == GenerateVerdict::NonEmptyPrompt
        } else {
            v == GenerateVerdict::Echo(f.model->0)
        }),
{
    if !f.is_object {
        return GenerateVerdict::NotObject;
    }
    if !(f.has_model && f.has_prompt) {
        return GenerateVerdict::MissingFields;
    }
    match (f.model, f.prompt) {
        (Some(m), Some(pr)) => {
            if !pr.as_str().is_empty() {
                GenerateVerdict::NonEmptyPrompt
            } else {
                GenerateVerdict::Echo(m)
            }
        },
        _ => GenerateVerdict::MissingFields,
    }
}

/// The generate endpoint end to end: parse, then validate. A body that
/// does not parse gets the 400 message; a parsed body gets the verdict
/// its shape and fields dictate.
pub fn plan_generate(body: &Vec<u8>) -> (r: Result<GenerateVerdict, String>)
    ensures
        ({
            let pe = parse_err_of(body@);
            let obj = is_object_of(body@);
            let hm = field_present_of(body@, "model"@);
            let hp = field_present_of(body@, "prompt"@);
            let mf = string_field_of(body@, "model"@);
            let pf = string_field_of(body@, "prompt"@);
            match r {
                Err(e) => pe matches Some(t) && e@ == "Error parsing request body: "@ + t,
                Ok(v) => {
                    &&& pe is None
                    &&& (!obj ==> v == GenerateVerdict::NotObject)
                    &&& (obj && !(hm && hp) ==> v == GenerateVerdict::MissingFields)
                    &&& (obj && hm && hp && (mf is None || pf is None) ==> v
                        == GenerateVerdict::MissingFields)
                    &&& (obj && hm && hp && mf is Some && pf is Some ==> (if (pf->0).len() > 0 {
                        v == GenerateVerdict::NonEmptyPrompt
                    } else {
                        v matches GenerateVerdict::Echo(m) && m@ == mf->0
                    }))
                },
            }
        }),
{
    match extract_generate_fields(body) {
        Err(e) => Err(e),
        Ok(f) => Ok(judge_generate(f)),
    }
}

/// The reply status for a verdict on the generate endpoint: the echo
/// succeeds with 200, everything else answers 501.
pub fn generate_status(v: &GenerateVerdict) -> (s: u16)
    ensures
        v is Echo <==> s == 200,
        !(v is Echo) <==> s == 501,
{
    match v {
        GenerateVerdict::Echo(_) => 200,
        _ => 501,
    }
}

/// The reply message for a failed generate verdict.
pub fn generate_error_message(v: &GenerateVerdict) -> (m: String)
    ensures
        v is NotObject ==> m@ == "Request body must be a JSON object"@,
        v is MissingFields ==> m@ == "Request body must contain 'model' and 'prompt' fields"@,
        v is NonEmptyPrompt ==> m@ == "Non-empty 'prompt' field is not supported yet"@,
        v is Echo ==> m@ == Seq::<char>::empty(),
{
    match v {
        GenerateVerdict::NotObject => String::from_str("Request body must be a JSON object"),
        GenerateVerdict::MissingFields => String::from_str(
            "Request body must contain 'model' and 'prompt' fields",
        ),
        GenerateVerdict::NonEmptyPrompt => String::from_str(
            "Non-empty 'prompt' field is not supported yet",
        ),
        GenerateVerdict::Echo(_) => String::new(),
    }
}

/// Reads an inventory payload `{"models": [{"name": …, …}, …]}` into a
/// model list: each entry's name, and its whole descriptor as JSON text,
/// in array order. `None` when the document does not parse, carries no
/// "models" array, or lists a model without a string name; the caller
/// treats that as a failed fetch.
pub fn parse_models_payload(body: &Vec<u8>) -> (r: Option<Vec<ModelConfig>>)
    ensures
        ({
            let items = models_items_of(body@);
            match r {
                None => items is None || (items matches Some(its) && exists|i: int|
                    0 <= i < its.len() && text_name_field_of(#[trigger] its[i]) is None),
                Some(v) => items matches Some(its) && v@.len() == its.len() && forall|i: int|
                    0 <= i < its.len() ==> (#[trigger] v@[i]).detail@ == its[i]
                        && text_name_field_of(its[i]) == Some(v@[i].name@),
            }
        }),
{
    let texts: Vec<String> = match json_models_texts(body) {
        None => {
            return None;
        },
        Some(t) => t,
    };
    let mut out: Vec<ModelConfig> = Vec::new();
    let mut i: usize = 0;
    while i < texts.len()
        invariant
            0 <= i <= texts@.len(),
            models_items_of(body@) matches Some(its) && texts@.len() == its.len() && (forall|
                t: int,
            | 0 <= t < its.len() ==> (#[trigger] texts@[t])@ == its[t]),
            out@.len() == i,
            forall|t: int|
                0 <= t < i ==> (#[trigger] out@[t]).detail@ == (texts@[t])@ && text_name_field_of(
                    (texts@[t])@,
                ) == Some(out@[t].name@),
        decreases texts@.len() - i,
    {
        match json_text_name_field(texts[i].as_str()) {
            None => {
                return None;
            },
            Some(name) => {
                out.push(ModelConfig { name, detail: texts[i].clone() });
            },
        }
        i = i + 1;
    }
    Some(out)
}

/// Whether `m`'s name and descriptor text come from some snapshot's
/// model list (an absent descriptor turning into empty text).
pub open spec fn model_provenance(snaps: Seq<ServerSnapshot>, m: ModelConfig) -> bool {
    exists|i: int, j: int|
        0 <= i < snaps.len() && 0 <= j < snaps[i].models@.len() && (#[trigger] snaps[i].models@[j]).name@
            == m.name@ && (match snaps[i].models@[j].detail {
            Some(d) => d@ == m.detail@,
            None => m.detail@ == Seq::<char>::empty(),
        })
}

/// The union of the model catalogues of all snapshots, deduplicated by
/// name: one entry per distinct name, in order of first appearance, with
/// the descriptor seen last. This backs the merged model listing.
pub fn merge_models(snaps: &Vec<ServerSnapshot>) -> (r: Vec<ModelConfig>)
    ensures
        distinct_names(r@),
        forall|name: Seq<char>|
            #![trigger seq_has_name(r@, name)]
            seq_has_name(r@, name) <==> (exists|i: int|
                0 <= i < snaps@.len() && snap_has_name(#[trigger] snaps@[i].models@, name)),
        forall|t: int| 0 <= t < r@.len() ==> model_provenance(snaps@, #[trigger] r@[t]),
{
    let mut flat: Vec<ModelConfig> = Vec::new();
    let mut i: usize = 0;
    while i < snaps.len()
        invariant
            0 <= i <= snaps@.len(),
            forall|k: int| 0 <= k < flat@.len() ==> model_provenance(snaps@, #[trigger] flat@[k]),
            forall|i2: int, j2: int|
                0 <= i2 < i && 0 <= j2 < snaps@[i2].models@.len() ==> seq_has_name(
                    flat@,
                    (#[trigger] snaps@[i2].models@[j2]).name@,
                ),
        decreases snaps@.len() - i,
    {
        let models = &snaps[i].models;
        let mut j: usize = 0;
        while j < models.len()
            invariant
                0 <= j <= models@.len(),
                0 <= i < snaps@.len(),
                models@ == snaps@[i as int].models@,
                forall|k: int|
                    0 <= k < flat@.len() ==> model_provenance(snaps@, #[trigger] flat@[k]),
                forall|i2: int, j2: int|
                    0 <= i2 < i && 0 <= j2 < snaps@[i2].models@.len() ==> seq_has_name(
                        flat@,
                        (#[trigger] snaps@[i2].models@[j2]).name@,
                    ),
                forall|j2: int|
                    0 <= j2 < j ==> seq_has_name(
                        flat@,
                        (#[trigger] snaps@[i as int].models@[j2]).name@,
                    ),
            decreases models@.len() - j,
        {
            let ghost flat0 = flat@;
            let m = &models[j];
            let detail: String = match &m.detail {
                Some(d) => d.clone(),
                None => String::new(),
            };
            flat.push(ModelConfig { name: m.name.clone(), detail });
            proof {
                let fresh = flat@[flat0.len() as int];
                assert(flat@ == flat0.push(fresh));
                assert(model_provenance(snaps@, fresh)) by {
                    assert((snaps@[i as int].models@[j as int]).name@ == fresh.name@);
                }
                assert forall|j2: int|
                    0 <= j2 < j + 1 implies seq_has_name(
                    flat@,
                    (#[trigger] snaps@[i as int].models@[j2]).name@,
                ) by {
                    if j2 == j as int {
                        assert(flat@[flat0.len() as int].name@ == snaps@[i as int].models@[j2].name@);
                    } else {
                        let w = choose|w: int|
                            0 <= w < flat0.len() && flat0[w].name@ == snaps@[i as int].models@[j2].name@;
                        assert(flat@[w].name@ == snaps@[i as int].models@[j2].name@);
                    }
                }
                assert forall|i2: int, j2: int|
                    0 <= i2 < i && 0 <= j2 < snaps@[i2].models@.len() implies seq_has_name(
                    flat@,
                    (#[trigger] snaps@[i2].models@[j2]).name@,
                ) by {
                    let w = choose|w: int|
                        0 <= w < flat0.len() && flat0[w].name@ == snaps@[i2].models@[j2].name@;
                    assert(flat@[w].name@ == snaps@[i2].models@[j2].name@);
                }
            }
            j = j + 1;
        }
        i = i + 1;
    }
    let ghost flat_seq = flat@;
    let r = dedup_models(flat);
    proof {
        lemma_dedup_names(flat_seq);
        lemma_dedup_provenance(flat_seq);
        assert forall|name: Seq<char>|
            #![trigger seq_has_name(r@, name)]
            seq_has_name(r@, name) <==> (exists|i: int|
                0 <= i < snaps@.len() && snap_has_name(#[trigger] snaps@[i].models@, name)) by {
            if seq_has_name(flat_seq, name) {
                let k = choose|k: int| 0 <= k < flat_seq.len() && flat_seq[k].name@ == name;
                assert(model_provenance(snaps@, flat_seq[k]));
                let (i2, j2) = choose|i2: int, j2: int|
                    0 <= i2 < snaps@.len() && 0 <= j2 < snaps@[i2].models@.len() && (
                    #[trigger] snaps@[i2].models@[j2]).name@ == flat_seq[k].name@ && (match snaps@[i2].models@[j2].detail {
                        Some(d) => d@ == flat_seq[k].detail@,
                        None => flat_seq[k].detail@ == Seq::<char>::empty(),
                    });
                assert(snap_has_name(snaps@[i2].models@, name));
            }
            if exists|i: int|
                0 <= i < snaps@.len() && snap_has_name(#[trigger] snaps@[i].models@, name) {
                let i2 = choose|i2: int|
                    0 <= i2 < snaps@.len() && snap_has_name(snaps@[i2].models@, name);
                let j2 = choose|j2: int|
                    0 <= j2 < snaps@[i2].models@.len() && snaps@[i2].models@[j2].name@ == name;
                assert(seq_has_name(flat_seq, snaps@[i2].models@[j2].name@));
            }
        }
        assert forall|t: int| 0 <= t < r@.len() implies model_provenance(
            snaps@,
            #[trigger] r@[t],
        ) by {
            let k = choose|k: int|
                0 <= k < flat_seq.len() && #[trigger] spec_dedup(flat_seq)[t] == flat_seq[k];
            assert(r@[t] == flat_seq[k]);
            assert(model_provenance(snaps@, flat_seq[k]));
        }
    }
    r
}

} // verus!
