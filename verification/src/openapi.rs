//! The OpenAPI document that the relay serves.

use vstd::prelude::*;

use crate::json::{
    first, get_member, law_last_member_counts, law_list_tree, member, object, single, trees,
    unsigned, unsigned_number, with, word, words, Json, JsonTree,
};
use crate::token::TokenClass;

verus! {

/// A schema that is a reference to a component.
pub open spec fn reference_tree(component: Seq<char>) -> JsonTree {
    JsonTree::Fields(seq![("$ref"@, JsonTree::Text(component))])
}

/// The schema of a string with one more member.
pub open spec fn string_tree(key: Seq<char>, value: JsonTree) -> JsonTree {
    JsonTree::Fields(
        Seq::empty()
            .push(("type"@, JsonTree::Text("string"@)))
            .push((key, value)),
    )
}

/// Content of one media type.
pub open spec fn content_tree(media_type: Seq<char>, schema: JsonTree) -> JsonTree {
    JsonTree::Fields(seq![(media_type, JsonTree::Fields(seq![("schema"@, schema)]))])
}

/// Content that is an envelope.
pub open spec fn envelope_content_tree() -> JsonTree {
    content_tree("application/json"@, reference_tree("#/components/schemas/Envelope"@))
}

/// A response with its description and content.
pub open spec fn response_tree(description: Seq<char>, content: JsonTree) -> JsonTree {
    JsonTree::Fields(
        Seq::empty()
            .push(("description"@, JsonTree::Text(description)))
            .push(("content"@, content)),
    )
}

/// A plain-text response with its one example.
pub open spec fn text_response_tree(description: Seq<char>, example: Seq<char>) -> JsonTree {
    response_tree(
        description,
        content_tree("text/plain"@, string_tree("example"@, JsonTree::Text(example))),
    )
}

/// A named example.
pub open spec fn example_tree(value: Seq<char>) -> JsonTree {
    JsonTree::Fields(seq![("value"@, JsonTree::Text(value))])
}

/// The response to an envelope that the gateway did not answer.
pub open spec fn bad_gateway_tree() -> JsonTree {
    let examples = JsonTree::Fields(
        Seq::empty()
            .push(("gateway_unreachable"@, example_tree("gateway unreachable"@)))
            .push(("gateway_error"@, example_tree("gateway error"@))),
    );
    response_tree(
        "Gateway unreachable or returned error"@,
        content_tree("text/plain"@, string_tree("examples"@, examples)),
    )
}

/// The health check.
pub open spec fn health_path_tree() -> JsonTree {
    let responses = JsonTree::Fields(
        seq![("200"@, text_response_tree("Relay is healthy"@, "ok"@))],
    );
    let operation = JsonTree::Fields(
        Seq::empty()
            .push(("summary"@, JsonTree::Text("Health check"@)))
            .push(("operationId"@, JsonTree::Text("healthz"@)))
            .push(("responses"@, responses)),
    );
    JsonTree::Fields(seq![("get"@, operation)])
}

/// The forwarding of an envelope.
pub open spec fn relay_path_tree() -> JsonTree {
    let request = JsonTree::Fields(
        Seq::empty()
            .push(("required"@, JsonTree::Bool(true)))
            .push(("content"@, envelope_content_tree())),
    );
    let responses = JsonTree::Fields(
        Seq::empty()
            .push((
                "200"@,
                response_tree("Encrypted envelope response from gateway"@, envelope_content_tree()),
            ))
            .push(("502"@, bad_gateway_tree()))
            .push(("504"@, text_response_tree("Gateway timeout"@, "gateway timeout"@))),
    );
    let operation = JsonTree::Fields(
        Seq::empty()
            .push(("summary"@, JsonTree::Text("Forward encrypted envelope"@)))
            .push(("operationId"@, JsonTree::Text("relayEnvelope"@)))
            .push(("requestBody"@, request))
            .push(("responses"@, responses)),
    );
    JsonTree::Fields(seq![("post"@, operation)])
}

/// The schema of a token class.
pub open spec fn token_class_tree() -> JsonTree {
    string_tree(
        "enum"@,
        JsonTree::List(
            seq![
                JsonTree::Text("c256"@),
                JsonTree::Text("c512"@),
                JsonTree::Text("c1024"@),
                JsonTree::Text("c2048"@),
                JsonTree::Text("c4096"@),
            ],
        ),
    )
}

/// The schema of a described string.
pub open spec fn described_tree(description: Seq<char>) -> JsonTree {
    string_tree("description"@, JsonTree::Text(description))
}

/// The properties of an envelope.
pub open spec fn envelope_properties_tree() -> JsonTree {
    let version = JsonTree::Fields(
        Seq::empty()
            .push(("type"@, JsonTree::Text("integer"@)))
            .push(("minimum"@, JsonTree::Number(unsigned_number(2))))
            .push(("example"@, JsonTree::Number(unsigned_number(2)))),
    );
    let request_id = JsonTree::Fields(
        Seq::empty()
            .push(("type"@, JsonTree::Text("string"@)))
            .push(("format"@, JsonTree::Text("uuid"@)))
            .push((
                "description"@,
                JsonTree::Text(
                    "Client-generated request id authenticated into the envelope transcript"@,
                ),
            )),
    );
    JsonTree::Fields(
        Seq::empty()
            .push(("v"@, version))
            .push(("token_class"@, reference_tree("#/components/schemas/TokenClass"@)))
            .push(("request_id"@, request_id))
            .push(("client_nonce_b64"@, described_tree("Base64-encoded 32-byte client nonce"@)))
            .push(("eph_pubkey_b64"@, described_tree("Base64-encoded client ephemeral public key"@)))
            .push(("nonce_b64"@, described_tree("Base64-encoded AEAD nonce"@)))
            .push(("ciphertext_b64"@, described_tree("Base64-encoded encrypted payload"@))),
    )
}

/// The schema of an envelope.
pub open spec fn envelope_schema_tree() -> JsonTree {
    let required = JsonTree::List(
        seq![
            JsonTree::Text("v"@),
            JsonTree::Text("token_class"@),
            JsonTree::Text("request_id"@),
            JsonTree::Text("client_nonce_b64"@),
            JsonTree::Text("eph_pubkey_b64"@),
            JsonTree::Text("nonce_b64"@),
            JsonTree::Text("ciphertext_b64"@),
        ],
    );
    JsonTree::Fields(
        Seq::empty()
            .push(("type"@, JsonTree::Text("object"@)))
            .push(("required"@, required))
            .push(("properties"@, envelope_properties_tree())),
    )
}

/// The whole document.
pub open spec fn openapi_tree() -> JsonTree {
    let info = JsonTree::Fields(
        Seq::empty()
            .push(("title"@, JsonTree::Text("ZK LLM Relay API"@)))
            .push(("version"@, JsonTree::Text("1.0.0"@)))
            .push((
                "description"@,
                JsonTree::Text(
                    "Privacy relay for forwarding encrypted envelope payloads to the gateway."@,
                ),
            )),
    );
    let server = JsonTree::Fields(seq![("url"@, JsonTree::Text("https://proxy.zerok.cloud"@))]);
    let paths = JsonTree::Fields(
        Seq::empty()
            .push(("/healthz"@, health_path_tree()))
            .push(("/relay"@, relay_path_tree())),
    );
    let schemas = JsonTree::Fields(
        Seq::empty()
            .push(("TokenClass"@, token_class_tree()))
            .push(("Envelope"@, envelope_schema_tree())),
    );
    JsonTree::Fields(
        Seq::empty()
            .push(("openapi"@, JsonTree::Text("3.1.0"@)))
            .push(("info"@, info))
            .push(("servers"@, JsonTree::List(seq![server])))
            .push(("paths"@, paths))
            .push(("components"@, JsonTree::Fields(seq![("schemas"@, schemas)]))),
    )
}

/// The document describes what the relay takes: the schema of a class names every
/// class, the schema of an envelope describes every member that it demands, and the
/// paths are the health check and the relay.
pub proof fn law_document_describes_what_is_demanded(class: TokenClass, i: int)
    ensures
        ({
            let classes = get_member(token_class_tree(), "enum"@);
            &&& classes is Some
            &&& classes->0 is List
            &&& classes->0->List_0.len() == 5
            &&& classes->0->List_0[class.rank() - 1] == JsonTree::Text(class.name())
        }),
        ({
            let required = get_member(envelope_schema_tree(), "required"@);
            let properties = get_member(envelope_schema_tree(), "properties"@);
            &&& required is Some
            &&& properties is Some
            &&& required->0 is List
            &&& 0 <= i < required->0->List_0.len() ==> required->0->List_0[i] is Text && get_member(
                properties->0,
                required->0->List_0[i]->Text_0,
            ) is Some
        }),
        ({
            let paths = get_member(openapi_tree(), "paths"@);
            &&& paths is Some
            &&& get_member(paths->0, "/healthz"@) is Some
            &&& get_member(paths->0, "/relay"@) is Some
        }),
{
    let f = token_class_tree()->Fields_0;
    assert(f.len() == 2 && f[1].0 == "enum"@);
    law_last_member_counts(f, 1, "enum"@);
    let g = envelope_schema_tree()->Fields_0;
    reveal_strlit("required");
    reveal_strlit("properties");
    assert("required"@.len() == 8 && "properties"@.len() == 10);
    assert(g.len() == 3 && g[1].0 == "required"@ && g[2].0 == "properties"@);
    law_last_member_counts(g, 1, "required"@);
    law_last_member_counts(g, 2, "properties"@);
    let required = g[1].1->List_0;
    let p = envelope_properties_tree()->Fields_0;
    assert(p.len() == 7);
    assert(p[0].0 == "v"@ && p[1].0 == "token_class"@ && p[2].0 == "request_id"@ && p[3].0
        == "client_nonce_b64"@ && p[4].0 == "eph_pubkey_b64"@ && p[5].0 == "nonce_b64"@ && p[6].0
        == "ciphertext_b64"@);
    if 0 <= i < required.len() {
        assert(required.len() == 7);
        assert(p[i].0 == required[i]->Text_0);
        lemma_given_is_some(p, i);
    }
    let d = openapi_tree()->Fields_0;
    reveal_strlit("paths");
    reveal_strlit("components");
    assert("paths"@.len() == 5 && "components"@.len() == 10);
    assert(d.len() == 5 && d[3].0 == "paths"@ && d[4].0 == "components"@);
    law_last_member_counts(d, 3, "paths"@);
    let q = d[3].1->Fields_0;
    assert(q.len() == 2 && q[0].0 == "/healthz"@ && q[1].0 == "/relay"@);
    lemma_given_is_some(q, 0);
    lemma_given_is_some(q, 1);
}

proof fn lemma_given_is_some(f: Seq<(Seq<char>, JsonTree)>, i: int)
    requires
        0 <= i < f.len(),
    ensures
        member(f, f[i].0) is Some,
    decreases f.len(),
{
    if f.last().0 != f[i].0 {
        assert(i < f.len() - 1);
        lemma_given_is_some(f.drop_last(), i);
    }
}

fn reference(component: &str) -> (r: Json)
    ensures
        r.tree() == reference_tree(component@),
{
    single("$ref", word(component))
}

fn string_with(key: &str, value: Json) -> (r: Json)
    ensures
        r.tree() == string_tree(key@, value.tree()),
{
    object(with(first("type", word("string")), key, value))
}

fn content(media_type: &str, schema: Json) -> (r: Json)
    ensures
        r.tree() == content_tree(media_type@, schema.tree()),
{
    single(media_type, single("schema", schema))
}

fn envelope_content() -> (r: Json)
    ensures
        r.tree() == envelope_content_tree(),
{
    content("application/json", reference("#/components/schemas/Envelope"))
}

fn response(description: &str, body: Json) -> (r: Json)
    ensures
        r.tree() == response_tree(description@, body.tree()),
{
    object(with(first("description", word(description)), "content", body))
}

fn text_response(description: &str, example: &str) -> (r: Json)
    ensures
        r.tree() == text_response_tree(description@, example@),
{
    response(description, content("text/plain", string_with("example", word(example))))
}

fn bad_gateway() -> (r: Json)
    ensures
        r.tree() == bad_gateway_tree(),
{
    let mut examples = first("gateway_unreachable", single("value", word("gateway unreachable")));
    examples = with(examples, "gateway_error", single("value", word("gateway error")));
    response(
        "Gateway unreachable or returned error",
        content("text/plain", string_with("examples", object(examples))),
    )
}

fn health_path() -> (r: Json)
    ensures
        r.tree() == health_path_tree(),
{
    let mut operation = first("summary", word("Health check"));
    operation = with(operation, "operationId", word("healthz"));
    operation = with(
        operation,
        "responses",
        single("200", text_response("Relay is healthy", "ok")),
    );
    single("get", object(operation))
}

fn relay_path() -> (r: Json)
    ensures
        r.tree() == relay_path_tree(),
{
    let request = with(first("required", Json::Bool(true)), "content", envelope_content());
    let mut responses = first(
        "200",
        response("Encrypted envelope response from gateway", envelope_content()),
    );
    responses = with(responses, "502", bad_gateway());
    responses = with(responses, "504", text_response("Gateway timeout", "gateway timeout"));
    let mut operation = first("summary", word("Forward encrypted envelope"));
    operation = with(operation, "operationId", word("relayEnvelope"));
    operation = with(operation, "requestBody", object(request));
    operation = with(operation, "responses", object(responses));
    single("post", object(operation))
}

fn token_class() -> (r: Json)
    ensures
        r.tree() == token_class_tree(),
{
    let classes = words(&["c256", "c512", "c1024", "c2048", "c4096"]);
    assert(classes.tree()->List_0 =~= token_class_tree()->Fields_0[1].1->List_0);
    string_with("enum", classes)
}

fn described(description: &str) -> (r: Json)
    ensures
        r.tree() == described_tree(description@),
{
    string_with("description", word(description))
}

fn envelope_properties() -> (r: Json)
    ensures
        r.tree() == envelope_properties_tree(),
{
    let mut version = first("type", word("integer"));
    version = with(version, "minimum", unsigned(2));
    version = with(version, "example", unsigned(2));
    let mut request_id = first("type", word("string"));
    request_id = with(request_id, "format", word("uuid"));
    request_id = with(
        request_id,
        "description",
        word("Client-generated request id authenticated into the envelope transcript"),
    );
    let mut all = first("v", object(version));
    all = with(all, "token_class", reference("#/components/schemas/TokenClass"));
    all = with(all, "request_id", object(request_id));
    all = with(all, "client_nonce_b64", described("Base64-encoded 32-byte client nonce"));
    all = with(all, "eph_pubkey_b64", described("Base64-encoded client ephemeral public key"));
    all = with(all, "nonce_b64", described("Base64-encoded AEAD nonce"));
    all = with(all, "ciphertext_b64", described("Base64-encoded encrypted payload"));
    object(all)
}

fn envelope_schema() -> (r: Json)
    ensures
        r.tree() == envelope_schema_tree(),
{
    let required = words(
        &[
            "v",
            "token_class",
            "request_id",
            "client_nonce_b64",
            "eph_pubkey_b64",
            "nonce_b64",
            "ciphertext_b64",
        ],
    );
    assert(required.tree()->List_0 =~= envelope_schema_tree()->Fields_0[1].1->List_0);
    let mut schema = first("type", word("object"));
    schema = with(schema, "required", required);
    schema = with(schema, "properties", envelope_properties());
    object(schema)
}

/// The OpenAPI document of the relay.
pub fn openapi_json() -> (r: Json)
    ensures
        r.tree() == openapi_tree(),
{
    let mut info = first("title", word("ZK LLM Relay API"));
    info = with(info, "version", word("1.0.0"));
    info = with(
        info,
        "description",
        word("Privacy relay for forwarding encrypted envelope payloads to the gateway."),
    );
    let mut servers: Vec<Json> = Vec::new();
    servers.push(single("url", word("https://proxy.zerok.cloud")));
    proof {
        law_list_tree(servers);
        assert(trees(servers@) =~= seq![servers@[0].tree()]);
    }
    let paths = with(first("/healthz", health_path()), "/relay", relay_path());
    let schemas = with(first("TokenClass", token_class()), "Envelope", envelope_schema());
    let mut document = first("openapi", word("3.1.0"));
    document = with(document, "info", object(info));
    document = with(document, "servers", Json::List(servers));
    document = with(document, "paths", object(paths));
    document = with(document, "components", single("schemas", object(schemas)));
    object(document)
}

} // verus!
