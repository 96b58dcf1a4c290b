use zk_llm_gateway::openapi::openapi_json;

#[test]
fn openapi_document_is_served_whole() {
    let expected = [
        r##"{"components":{"schemas":{"Envelope":{"properties":{"ciphertext_b64":{"description":"##,
        r##""Base64-encoded encrypted payload","type":"string"},"client_nonce_b64":{"description"##,
        r##"":"Base64-encoded 32-byte client nonce","type":"string"},"eph_pubkey_b64":{"descript"##,
        r##"ion":"Base64-encoded client ephemeral public key","type":"string"},"nonce_b64":{"des"##,
        r##"cription":"Base64-encoded AEAD nonce","type":"string"},"request_id":{"description":""##,
        r##"Client-generated request id authenticated into the envelope transcript","format":"uu"##,
        r##"id","type":"string"},"token_class":{"$ref":"#/components/schemas/TokenClass"},"v":{""##,
        r##"example":2,"minimum":2,"type":"integer"}},"required":["v","token_class","request_id""##,
        r##","client_nonce_b64","eph_pubkey_b64","nonce_b64","ciphertext_b64"],"type":"object"},"##,
        r##""TokenClass":{"enum":["c256","c512","c1024","c2048","c4096"],"type":"string"}}},"inf"##,
        r##"o":{"description":"Privacy relay for forwarding encrypted envelope payloads to the g"##,
        r##"ateway.","title":"ZK LLM Relay API","version":"1.0.0"},"openapi":"3.1.0","paths":{"/"##,
        r##"healthz":{"get":{"operationId":"healthz","responses":{"200":{"content":{"text/plain""##,
        r##":{"schema":{"example":"ok","type":"string"}}},"description":"Relay is healthy"}},"su"##,
        r##"mmary":"Health check"}},"/relay":{"post":{"operationId":"relayEnvelope","requestBody"##,
        r##"":{"content":{"application/json":{"schema":{"$ref":"#/components/schemas/Envelope"}}"##,
        r##"},"required":true},"responses":{"200":{"content":{"application/json":{"schema":{"$re"##,
        r##"f":"#/components/schemas/Envelope"}}},"description":"Encrypted envelope response fro"##,
        r##"m gateway"},"502":{"content":{"text/plain":{"schema":{"examples":{"gateway_error":{""##,
        r##"value":"gateway error"},"gateway_unreachable":{"value":"gateway unreachable"}},"type"##,
        r##"":"string"}}},"description":"Gateway unreachable or returned error"},"504":{"content"##,
        r##"":{"text/plain":{"schema":{"example":"gateway timeout","type":"string"}}},"descripti"##,
        r##"on":"Gateway timeout"}},"summary":"Forward encrypted envelope"}}},"servers":[{"url":"##,
        r##""https://proxy.zerok.cloud"}]}"##,
    ]
    .concat();
    assert_eq!(openapi_json().text(), expected);
}

#[test]
fn openapi_document_names_its_paths() {
    let document = openapi_json();
    let paths = document.get("paths").unwrap();
    assert!(paths.get("/healthz").unwrap().get("get").is_some());
    assert!(paths.get("/relay").unwrap().get("post").is_some());
    assert!(paths.get("/docs").is_none());
    let schemas = document.get("components").unwrap().get("schemas").unwrap();
    let version = schemas.get("Envelope").unwrap().get("properties").unwrap().get("v").unwrap();
    assert_eq!(version.get("minimum").unwrap().as_u64(), Some(2));
}
