//! The control-plane client: its requests, and what it makes of the answers.
//!
//! It speaks the HTTP/JSON API of
//! [`httpapi`](crate::pageserver::httpapi). Where the server has a control
//! token, every request bears it.

use vstd::prelude::*;

use crate::aethelctl::deploy::opt_text;
use crate::json::{
    field_of, json_read, json_text, json_uint, lemma_field_at, list_view, read_json, uint, Fields,
    Json, JsonV,
};
use crate::pageserver::control::optional_text;
use crate::pageserver::httpapi::{may_serve, target_parts};
use crate::text::{copy_str, decimal, push_decimal, texts, trim_end_char, without_trailing};

verus! {

/// Default control-plane address (the pageserver's HTTP API).
pub const DEFAULT_SERVER: &'static str = "http://127.0.0.1:6403";

/// A request to the control plane.
pub struct ApiRequest {
    pub method: &'static str,
    pub url: String,
    /// The `Authorization` header, where a token is borne.
    pub authorization: Option<String>,
    /// The body, where there is one.
    pub body: Option<Json>,
}

/// What an [`ApiRequest`] says.
pub struct ApiRequestV {
    pub method: Seq<char>,
    pub url: Seq<char>,
    pub authorization: Option<Seq<char>>,
    pub body: Option<JsonV>,
}

/// What an optional document holds.
pub open spec fn doc_view(j: Option<Json>) -> Option<JsonV> {
    match j {
        Some(j) => Some(j@),
        None => None,
    }
}

impl View for ApiRequest {
    type V = ApiRequestV;

    open spec fn view(&self) -> ApiRequestV {
        ApiRequestV {
            method: self.method@,
            url: self.url@,
            authorization: opt_text(self.authorization),
            body: doc_view(self.body),
        }
    }
}

/// A server's control plane: where it is, and the token to bear.
pub struct Client {
    base: String,
    token: Option<String>,
}

/// What a [`Client`] holds.
pub struct ClientV {
    pub base: Seq<char>,
    pub token: Option<Seq<char>>,
}

impl View for Client {
    type V = ClientV;

    closed spec fn view(&self) -> ClientV {
        ClientV { base: self.base@, token: opt_text(self.token) }
    }
}

/// A client's request: to the path below its base, bearing its token.
pub open spec fn request_to(
    c: ClientV,
    method: Seq<char>,
    path: Seq<char>,
    body: Option<JsonV>,
) -> ApiRequestV {
    ApiRequestV {
        method,
        url: c.base + path,
        authorization: match c.token {
            Some(t) => Some("Bearer "@ + t),
            None => None,
        },
        body,
    }
}

/// The path that lists a tenant's timelines.
pub open spec fn timelines_path_text(tenant: Option<Seq<char>>) -> Seq<char> {
    match tenant {
        Some(t) => "/v1/timelines?tenant="@ + t,
        None => "/v1/timelines"@,
    }
}

/// The path that lists a tenant's timelines.
pub fn timelines_path(tenant: Option<&str>) -> (r: String)
    ensures
        r@ == timelines_path_text(optional_text(tenant)),
{
    match tenant {
        Some(t) => {
            let mut m = copy_str("/v1/timelines?tenant=");
            m.push_str(t);
            m
        },
        None => copy_str("/v1/timelines"),
    }
}

/// The fields, with the tenant behind them where there is one.
pub open spec fn with_tenant_field(
    f: Seq<(Seq<char>, JsonV)>,
    tenant: Option<Seq<char>>,
) -> Seq<(Seq<char>, JsonV)> {
    match tenant {
        Some(t) => f.push(("tenant"@, JsonV::Text(t))),
        None => f,
    }
}

fn with_tenant(fields: Fields, tenant: Option<&str>) -> (j: Json)
    ensures
        j@ == JsonV::Object(with_tenant_field(fields@, optional_text(tenant))),
{
    let mut f = fields;
    if let Some(t) = tenant {
        f.put("tenant", json_text(t));
    }
    f.done()
}

/// The fields of a request's body, the tenant among them where one is named.
proof fn lemma_body_fields(f: Seq<(Seq<char>, JsonV)>, tenant: Option<Seq<char>>)
    requires
        forall|i: int, j: int| 0 <= i < j < f.len() ==> (#[trigger] f[i]).0 != (#[trigger] f[j]).0,
        forall|i: int| 0 <= i < f.len() ==> (#[trigger] f[i]).0 != "tenant"@,
    ensures
        ({
            let b = JsonV::Object(with_tenant_field(f, tenant));
            &&& forall|i: int| 0 <= i < f.len() ==> b.field((#[trigger] f[i]).0) == Some(f[i].1)
            &&& b.text_field("tenant"@) == tenant
        }),
{
    let g = with_tenant_field(f, tenant);
    assert forall|i: int| 0 <= i < f.len() implies field_of(g, (#[trigger] f[i]).0) == Some(f[i].1) by {
        assert(g[i] == f[i]);
        assert forall|j: int| 0 <= j < i implies (#[trigger] g[j]).0 != g[i].0 by {
            assert(g[j] == f[j]);
        }
        lemma_field_at(g, i);
    }
    let n = f.len() as int;
    match tenant {
        Some(t) => {
            assert(g[n] == ("tenant"@, JsonV::Text(t)));
            assert forall|j: int| 0 <= j < n implies (#[trigger] g[j]).0 != g[n].0 by {
                assert(g[j] == f[j]);
            }
            lemma_field_at(g, n);
        },
        None => {
            lemma_no_field(f, "tenant"@);
        },
    }
}

proof fn lemma_no_field(f: Seq<(Seq<char>, JsonV)>, key: Seq<char>)
    requires
        forall|i: int| 0 <= i < f.len() ==> (#[trigger] f[i]).0 != key,
    ensures
        field_of(f, key) is None,
    decreases f.len(),
{
    if f.len() > 0 {
        assert(f[0].0 != key);
        assert forall|i: int| 0 <= i < f.skip(1).len() implies (#[trigger] f.skip(1)[i]).0 != key by {
            assert(f.skip(1)[i] == f[i + 1]);
        }
        lemma_no_field(f.skip(1), key);
    }
}

/// The document of one text.
pub open spec fn id_doc(id: Seq<char>) -> Seq<(Seq<char>, JsonV)> {
    seq![("id"@, JsonV::Text(id))]
}

fn id_fields(id: &str) -> (f: Fields)
    ensures
        f@ == id_doc(id@),
{
    let mut f = Fields::new();
    f.put("id", json_text(id));
    assert(f@ =~= id_doc(id@));
    f
}

impl Client {
    /// A client for the server at `base` (slashes at its end aside), bearing
    /// `token` where there is one.
    pub fn new(base: &str, token: Option<String>) -> (r: Client)
        ensures
            r@ == (ClientV { base: trim_end_char(base@, '/'), token: opt_text(token) }),
    {
        Client { base: without_trailing(base, '/'), token }
    }

    /// The server's address.
    pub fn base(&self) -> (r: &str)
        ensures
            r@ == self@.base,
    {
        self.base.as_str()
    }

    fn url(&self, path: &str) -> (r: String)
        ensures
            r@ == self@.base + path@,
    {
        let mut m = copy_str(self.base.as_str());
        m.push_str(path);
        m
    }

    fn request(&self, method: &'static str, path: &str, body: Option<Json>) -> (r: ApiRequest)
        ensures
            r@ == request_to(self@, method@, path@, doc_view(body)),
    {
        let authorization = match &self.token {
            Some(t) => {
                let mut m = copy_str("Bearer ");
                m.push_str(t.as_str());
                Some(m)
            },
            None => None,
        };
        ApiRequest { method, url: self.url(path), authorization, body }
    }

    /// Liveness.
    pub fn healthz(&self) -> (r: ApiRequest)
        ensures
            r@ == request_to(self@, "GET"@, "/healthz"@, None),
    {
        self.request("GET", "/healthz", None)
    }

    /// List tenant ids.
    pub fn list_tenants(&self) -> (r: ApiRequest)
        ensures
            r@ == request_to(self@, "GET"@, "/v1/tenants"@, None),
    {
        self.request("GET", "/v1/tenants", None)
    }

    /// Create a tenant.
    pub fn create_tenant(&self, id: &str) -> (r: ApiRequest)
        ensures
            r@ == request_to(self@, "POST"@, "/v1/tenants"@, Some(JsonV::Object(id_doc(id@)))),
    {
        self.request("POST", "/v1/tenants", Some(id_fields(id).done()))
    }

    /// List a tenant's timeline ids.
    pub fn list_timelines(&self, tenant: Option<&str>) -> (r: ApiRequest)
        ensures
            r@ == request_to(
                self@,
                "GET"@,
                timelines_path_text(optional_text(tenant)),
                None,
            ),
    {
        self.request("GET", timelines_path(tenant).as_str(), None)
    }

    /// Create a root timeline.
    pub fn create_timeline(&self, id: &str, tenant: Option<&str>) -> (r: ApiRequest)
        ensures
            r@ == request_to(
                self@,
                "POST"@,
                "/v1/timelines"@,
                Some(JsonV::Object(with_tenant_field(id_doc(id@), optional_text(tenant)))),
            ),
            r@.body matches Some(b) && b.text_field("id"@) == Some(id@) && b.text_field("tenant"@)
                == optional_text(tenant),
    {
        proof {
            reveal_strlit("id");
            reveal_strlit("tenant");
            assert("id"@.len() == 2 && "tenant"@.len() == 6);
            lemma_body_fields(id_doc(id@), optional_text(tenant));
            assert(id_doc(id@)[0].0 == "id"@);
        }
        self.request("POST", "/v1/timelines", Some(with_tenant(id_fields(id), tenant)))
    }

    /// Branch `new` off `parent` at `lsn`.
    pub fn branch(&self, new: &str, parent: &str, lsn: u64, tenant: Option<&str>) -> (r: ApiRequest)
        ensures
            r@ == request_to(
                self@,
                "POST"@,
                "/v1/branches"@,
                Some(
                    JsonV::Object(
                        with_tenant_field(
                            seq![
                                ("timeline"@, JsonV::Text(new@)),
                                ("parent"@, JsonV::Text(parent@)),
                                ("lsn"@, uint(lsn)),
                            ],
                            optional_text(tenant),
                        ),
                    ),
                ),
            ),
            r@.body matches Some(b) && b.text_field("timeline"@) == Some(new@) && b.text_field(
                "parent"@,
            ) == Some(parent@) && b.u64_field("lsn"@) == Some(lsn) && b.text_field("tenant"@)
                == optional_text(tenant),
    {
        let mut f = Fields::new();
        f.put("timeline", json_text(new));
        f.put("parent", json_text(parent));
        f.put("lsn", json_uint(lsn));
        assert(f@ =~= seq![
            ("timeline"@, JsonV::Text(new@)),
            ("parent"@, JsonV::Text(parent@)),
            ("lsn"@, uint(lsn)),
        ]);
        proof {
            reveal_strlit("timeline");
            reveal_strlit("parent");
            reveal_strlit("lsn");
            reveal_strlit("tenant");
            assert("timeline"@.len() == 8 && "parent"@.len() == 6 && "lsn"@.len() == 3);
            assert("tenant"@.len() == 6 && "parent"@[0] == 'p' && "tenant"@[0] == 't');
            lemma_body_fields(f@, optional_text(tenant));
            assert(f@[0].0 == "timeline"@ && f@[1].0 == "parent"@ && f@[2].0 == "lsn"@);
        }
        self.request("POST", "/v1/branches", Some(with_tenant(f, tenant)))
    }

    /// Stream WAL into a timeline.
    pub fn receive(
        &self,
        timeline: &str,
        safekeeper: &str,
        start_lsn: u64,
        tenant: Option<&str>,
    ) -> (r: ApiRequest)
        ensures
            r@ == request_to(
                self@,
                "POST"@,
                "/v1/timelines/receive"@,
                Some(
                    JsonV::Object(
                        with_tenant_field(
                            seq![
                                ("timeline"@, JsonV::Text(timeline@)),
                                ("safekeeper"@, JsonV::Text(safekeeper@)),
                                ("start_lsn"@, uint(start_lsn)),
                            ],
                            optional_text(tenant),
                        ),
                    ),
                ),
            ),
            r@.body matches Some(b) && b.text_field("timeline"@) == Some(timeline@) && b.text_field(
                "safekeeper"@,
            ) == Some(safekeeper@) && b.u64_field("start_lsn"@) == Some(start_lsn) && b.text_field(
                "tenant"@,
            ) == optional_text(tenant),
    {
        let mut f = Fields::new();
        f.put("timeline", json_text(timeline));
        f.put("safekeeper", json_text(safekeeper));
        f.put("start_lsn", json_uint(start_lsn));
        assert(f@ =~= seq![
            ("timeline"@, JsonV::Text(timeline@)),
            ("safekeeper"@, JsonV::Text(safekeeper@)),
            ("start_lsn"@, uint(start_lsn)),
        ]);
        proof {
            reveal_strlit("timeline");
            reveal_strlit("safekeeper");
            reveal_strlit("start_lsn");
            reveal_strlit("tenant");
            assert("timeline"@.len() == 8 && "safekeeper"@.len() == 10);
            assert("start_lsn"@.len() == 9 && "tenant"@.len() == 6);
            lemma_body_fields(f@, optional_text(tenant));
            assert(f@[0].0 == "timeline"@ && f@[1].0 == "safekeeper"@ && f@[2].0 == "start_lsn"@);
        }
        self.request("POST", "/v1/timelines/receive", Some(with_tenant(f, tenant)))
    }

    /// Collect below `horizon_lsn`.
    pub fn gc(&self, horizon_lsn: u64, tenant: Option<&str>) -> (r: ApiRequest)
        ensures
            r@ == request_to(
                self@,
                "POST"@,
                "/v1/gc"@,
                Some(
                    JsonV::Object(
                        with_tenant_field(
                            seq![("horizon_lsn"@, uint(horizon_lsn))],
                            optional_text(tenant),
                        ),
                    ),
                ),
            ),
            r@.body matches Some(b) && b.u64_field("horizon_lsn"@) == Some(horizon_lsn)
                && b.text_field("tenant"@) == optional_text(tenant),
    {
        let mut f = Fields::new();
        f.put("horizon_lsn", json_uint(horizon_lsn));
        assert(f@ =~= seq![("horizon_lsn"@, uint(horizon_lsn))]);
        proof {
            reveal_strlit("horizon_lsn");
            reveal_strlit("tenant");
            assert("horizon_lsn"@.len() == 11 && "tenant"@.len() == 6);
            lemma_body_fields(f@, optional_text(tenant));
            assert(f@[0].0 == "horizon_lsn"@);
        }
        self.request("POST", "/v1/gc", Some(with_tenant(f, tenant)))
    }
}

/// A server that wants a token serves a client's request exactly where the client
/// bears that token, liveness aside.
pub proof fn only_the_token_is_accepted(
    c: ClientV,
    method: Seq<char>,
    path: Seq<char>,
    body: Option<JsonV>,
    token: Seq<char>,
)
    ensures
        may_serve(
            target_parts(path).0,
            Some(token),
            request_to(c, method, path, body).authorization,
        ) <==> target_parts(path).0 == "/healthz"@ || c.token == Some(token),
{
    if let Some(t) = c.token {
        let bearer = "Bearer "@;
        if bearer + t == bearer + token {
            assert((bearer + t).skip(bearer.len() as int) =~= t);
            assert((bearer + token).skip(bearer.len() as int) =~= token);
        }
    }
}

/// The strings among the documents, in order.
pub open spec fn only_texts(v: Seq<JsonV>) -> Seq<Seq<char>>
    decreases v.len(),
{
    if v.len() == 0 {
        Seq::empty()
    } else {
        let rest = only_texts(v.drop_last());
        match v.last() {
            JsonV::Text(t) => rest.push(t),
            _ => rest,
        }
    }
}

/// The strings of a list field; none where there is no such field.
pub open spec fn texts_of_field(v: JsonV, key: Seq<char>) -> Seq<Seq<char>> {
    match v.list_field(key) {
        Some(l) => only_texts(l),
        None => Seq::empty(),
    }
}

/// The strings of a list field.
pub fn string_array(v: &Json, key: &str) -> (out: Vec<String>)
    ensures
        texts(out@) == texts_of_field(v@, key@),
{
    let mut out: Vec<String> = Vec::new();
    assert(texts(out@) =~= Seq::empty());
    if let Some(l) = v.get_list(key) {
        let ghost lv = list_view(l@);
        let mut i: usize = 0;
        assert(lv.take(0) =~= Seq::empty());
        while i < l.len()
            invariant
                i <= l@.len(),
                lv == list_view(l@),
                texts(out@) == only_texts(lv.take(i as int)),
            decreases l@.len() - i,
        {
            let ghost before = texts(out@);
            proof {
                assert(lv.take(i + 1).drop_last() =~= lv.take(i as int));
                assert(lv.take(i + 1).last() == l@[i as int]@);
            }
            if let Json::Text(t) = &l[i] {
                out.push(copy_str(t.as_str()));
                assert(texts(out@) =~= before.push(t@));
            }
            i += 1;
        }
        assert(lv.take(i as int) =~= lv);
    }
    out
}

/// What is wrong according to a server's answer: its `error` field, or else the
/// whole answer. `doc` is the answer as a document, if it is one.
pub open spec fn detail_of(doc: Option<JsonV>, raw: Seq<char>) -> Seq<char> {
    match doc {
        Some(j) => match j.text_field("error"@) {
            Some(m) => m,
            None => raw,
        },
        None => raw,
    }
}

/// What is wrong according to a server's answer.
pub fn error_detail(doc: &Option<Json>, raw: &str) -> (r: String)
    ensures
        r@ == detail_of(doc_view(*doc), raw@),
{
    match doc {
        Some(j) => match j.get_str("error") {
            Some(m) => copy_str(m),
            None => copy_str(raw),
        },
        None => copy_str(raw),
    }
}

/// The message for an answer with an error status.
pub fn server_error(code: u16, raw: &str) -> (r: String)
    ensures
        r@ == "server returned "@ + decimal(code as nat) + ": "@ + detail_of(json_read(raw@), raw@),
{
    let doc = read_json(raw);
    let detail = error_detail(&doc, raw);
    let mut m = copy_str("server returned ");
    push_decimal(&mut m, code as u64);
    m.push_str(": ");
    m.push_str(detail.as_str());
    m
}

/// The message for a request that got no answer.
pub fn request_failed(base: &str, why: &str) -> (r: String)
    ensures
        r@ == "request to "@ + base@ + " failed: "@ + why@,
{
    let mut m = copy_str("request to ");
    m.push_str(base);
    m.push_str(" failed: ");
    m.push_str(why);
    m
}

/// The strings of a list are all of its strings and nothing else, in their order.
pub proof fn only_the_strings_are_taken(v: Seq<JsonV>, x: JsonV)
    ensures
        only_texts(v.push(x)) == (match x {
            JsonV::Text(t) => only_texts(v).push(t),
            _ => only_texts(v),
        }),
        (forall|i: int| 0 <= i < v.len() ==> (#[trigger] v[i]) is Text) ==> only_texts(v)
            == Seq::new(v.len(), |i: int| v[i]->Text_0),
    decreases v.len(),
{
    assert(v.push(x).drop_last() =~= v);
    if v.len() > 0 {
        let front = v.drop_last();
        only_the_strings_are_taken(front, x);
        if forall|i: int| 0 <= i < v.len() ==> (#[trigger] v[i]) is Text {
            assert forall|i: int| 0 <= i < front.len() implies (#[trigger] front[i]) is Text by {
                assert(front[i] == v[i]);
            }
            assert(v[v.len() - 1] is Text);
            assert(only_texts(v) =~= Seq::new(v.len(), |i: int| v[i]->Text_0));
        }
    } else {
        assert(only_texts(v) =~= Seq::new(v.len(), |i: int| v[i]->Text_0));
    }
}

/// What is wrong is what the server says in its `error` field, where its answer is a document
/// that has one, and else the whole answer.
pub proof fn errors_are_told_as_the_server_says(doc: Option<JsonV>, raw: Seq<char>, m: Seq<char>)
    ensures
        (doc matches Some(j) && j.text_field("error"@) == Some(m)) ==> detail_of(doc, raw) == m,
        doc is None ==> detail_of(doc, raw) == raw,
        (doc matches Some(j) && j.text_field("error"@) is None) ==> detail_of(doc, raw) == raw,
{
}

} // verus!
