//! Deployment: the arguments of the `helm` and `docker` calls.

use vstd::prelude::*;

use crate::text::{copy_str, join_texts, joined, same_text, texts};

verus! {

/// Options for `aethelctl deploy` (a `helm upgrade --install`).
#[derive(Debug, Clone)]
pub struct DeployOpts {
    pub release: String,
    pub namespace: String,
    pub values_files: Vec<String>,
    pub sets: Vec<String>,
    pub object_store_url: Option<String>,
    pub image_repo: Option<String>,
    pub image_tag: Option<String>,
    /// Expose the proxy with a cloud load balancer.
    pub expose: bool,
    pub wait: bool,
    pub dry_run: bool,
}

/// What [`DeployOpts`] hold.
pub struct DeployOptsV {
    pub release: Seq<char>,
    pub namespace: Seq<char>,
    pub values_files: Seq<Seq<char>>,
    pub sets: Seq<Seq<char>>,
    pub object_store_url: Option<Seq<char>>,
    pub image_repo: Option<Seq<char>>,
    pub image_tag: Option<Seq<char>>,
    pub expose: bool,
    pub wait: bool,
    pub dry_run: bool,
}

impl Default for DeployOpts {
    /// Nothing set.
    fn default() -> (r: DeployOpts)
        ensures
            r@ == (DeployOptsV {
                release: Seq::empty(),
                namespace: Seq::empty(),
                values_files: Seq::empty(),
                sets: Seq::empty(),
                object_store_url: None,
                image_repo: None,
                image_tag: None,
                expose: false,
                wait: false,
                dry_run: false,
            }),
    {
        let r = DeployOpts {
            release: String::new(),
            namespace: String::new(),
            values_files: Vec::new(),
            sets: Vec::new(),
            object_store_url: None,
            image_repo: None,
            image_tag: None,
            expose: false,
            wait: false,
            dry_run: false,
        };
        assert(r@.values_files =~= Seq::empty());
        assert(r@.sets =~= Seq::empty());
        assert(r@.release =~= Seq::empty());
        assert(r@.namespace =~= Seq::empty());
        r
    }
}

/// The text of an optional string.
pub open spec fn opt_text(t: Option<String>) -> Option<Seq<char>> {
    match t {
        Some(t) => Some(t@),
        None => None,
    }
}

impl View for DeployOpts {
    type V = DeployOptsV;

    open spec fn view(&self) -> DeployOptsV {
        DeployOptsV {
            release: self.release@,
            namespace: self.namespace@,
            values_files: texts(self.values_files@),
            sets: texts(self.sets@),
            object_store_url: opt_text(self.object_store_url),
            image_repo: opt_text(self.image_repo),
            image_tag: opt_text(self.image_tag),
            expose: self.expose,
            wait: self.wait,
            dry_run: self.dry_run,
        }
    }
}

/// `flag` before each of the texts.
pub open spec fn flagged(flag: Seq<char>, s: Seq<Seq<char>>) -> Seq<Seq<char>>
    decreases s.len(),
{
    if s.len() == 0 {
        Seq::empty()
    } else {
        flagged(flag, s.drop_last()).push(flag).push(s.last())
    }
}

/// `key` and the value, where there is one.
pub open spec fn setting(key: Seq<char>, value: Option<Seq<char>>) -> Seq<Seq<char>> {
    match value {
        Some(v) => seq![key + v],
        None => Seq::empty(),
    }
}

/// `arg`, where it is wanted.
pub open spec fn optional_arg(wanted: bool, arg: Seq<char>) -> Seq<Seq<char>> {
    if wanted {
        seq![arg]
    } else {
        Seq::empty()
    }
}

/// All chart settings: those given, then those that other options amount to.
pub open spec fn all_sets(o: DeployOptsV) -> Seq<Seq<char>> {
    o.sets + setting("objectStore.url="@, o.object_store_url) + setting(
        "image.repository="@,
        o.image_repo,
    ) + setting("image.tag="@, o.image_tag) + optional_arg(
        o.expose,
        "proxy.service.type=LoadBalancer"@,
    )
}

/// The arguments of `helm`.
pub open spec fn helm_arg_list(o: DeployOptsV, chart_dir: Seq<char>) -> Seq<Seq<char>> {
    seq![
        "upgrade"@,
        "--install"@,
        o.release,
        chart_dir,
        "--namespace"@,
        o.namespace,
        "--create-namespace"@,
    ] + flagged("--values"@, o.values_files) + flagged("--set"@, all_sets(o)) + optional_arg(
        o.wait,
        "--wait"@,
    ) + optional_arg(o.dry_run, "--dry-run"@)
}

/// Append a copy of the text.
fn push_text(v: &mut Vec<String>, t: &str)
    ensures
        texts(final(v)@) == texts(old(v)@).push(t@),
{
    v.push(copy_str(t));
    assert(texts(v@) =~= texts(old(v)@).push(t@));
}

/// Append `flag` and each of the texts.
fn push_flagged(v: &mut Vec<String>, flag: &str, s: &Vec<String>)
    ensures
        texts(final(v)@) == texts(old(v)@) + flagged(flag@, texts(s@)),
{
    let ghost start = texts(v@);
    let ghost all = texts(s@);
    let mut i: usize = 0;
    assert(all.take(0) =~= Seq::empty());
    assert(texts(v@) =~= start + flagged(flag@, all.take(0)));
    while i < s.len()
        invariant
            i <= s@.len(),
            all == texts(s@),
            texts(v@) == start + flagged(flag@, all.take(i as int)),
        decreases s@.len() - i,
    {
        push_text(v, flag);
        push_text(v, s[i].as_str());
        assert(all.take(i + 1).drop_last() =~= all.take(i as int));
        assert(all.take(i + 1).last() == s@[i as int]@);
        assert(texts(v@) =~= start + flagged(flag@, all.take(i + 1)));
        i += 1;
    }
    assert(all.take(i as int) =~= all);
}

fn push_setting(v: &mut Vec<String>, key: &str, value: &Option<String>)
    ensures
        texts(final(v)@) == texts(old(v)@) + setting(key@, opt_text(*value)),
{
    match value {
        Some(x) => {
            let mut t = copy_str(key);
            t.push_str(x.as_str());
            push_text(v, t.as_str());
            assert(texts(v@) =~= texts(old(v)@) + setting(key@, opt_text(*value)));
        },
        None => {
            assert(texts(v@) =~= texts(old(v)@) + setting(key@, opt_text(*value)));
        },
    }
}

/// Build the `helm` argument list (without the leading `helm`).
pub fn helm_args(opts: &DeployOpts, chart_dir: &str) -> (args: Vec<String>)
    ensures
        texts(args@) == helm_arg_list(opts@, chart_dir@),
{
    let mut args: Vec<String> = Vec::new();
    push_text(&mut args, "upgrade");
    push_text(&mut args, "--install");
    push_text(&mut args, opts.release.as_str());
    push_text(&mut args, chart_dir);
    push_text(&mut args, "--namespace");
    push_text(&mut args, opts.namespace.as_str());
    push_text(&mut args, "--create-namespace");
    let ghost head = seq![
        "upgrade"@,
        "--install"@,
        opts@.release,
        chart_dir@,
        "--namespace"@,
        opts@.namespace,
        "--create-namespace"@,
    ];
    assert(texts(args@) =~= head);
    push_flagged(&mut args, "--values", &opts.values_files);
    let mut sets: Vec<String> = Vec::new();
    let mut i: usize = 0;
    let ghost given = texts(opts.sets@);
    assert(texts(sets@) =~= given.take(0));
    while i < opts.sets.len()
        invariant
            i <= opts.sets@.len(),
            given == texts(opts.sets@),
            texts(sets@) == given.take(i as int),
        decreases opts.sets@.len() - i,
    {
        push_text(&mut sets, opts.sets[i].as_str());
        assert(texts(sets@) =~= given.take(i + 1));
        i += 1;
    }
    assert(given.take(i as int) =~= given);
    push_setting(&mut sets, "objectStore.url=", &opts.object_store_url);
    push_setting(&mut sets, "image.repository=", &opts.image_repo);
    push_setting(&mut sets, "image.tag=", &opts.image_tag);
    if opts.expose {
        push_text(&mut sets, "proxy.service.type=LoadBalancer");
    }
    assert(texts(sets@) =~= all_sets(opts@));
    push_flagged(&mut args, "--set", &sets);
    if opts.wait {
        push_text(&mut args, "--wait");
    }
    if opts.dry_run {
        push_text(&mut args, "--dry-run");
    }
    assert(texts(args@) =~= helm_arg_list(opts@, chart_dir@));
    args
}

/// The equivalent `helm` command line, for display.
pub fn command_preview(opts: &DeployOpts) -> (r: String)
    ensures
        r@ == "helm "@ + joined(helm_arg_list(opts@, "<chart>"@), " "@),
{
    let args = helm_args(opts, "<chart>");
    let mut m = copy_str("helm ");
    m.push_str(join_texts(&args, " ").as_str());
    m
}

/// The shell command that applies a deployment and shows all that `helm` says.
pub fn apply_command(opts: &DeployOpts, chart_dir: &str) -> (r: String)
    ensures
        r@ == "helm "@ + joined(helm_arg_list(opts@, chart_dir@), " "@) + " 2>&1"@,
{
    let args = helm_args(opts, chart_dir);
    let mut m = copy_str("helm ");
    m.push_str(join_texts(&args, " ").as_str());
    m.push_str(" 2>&1");
    m
}

/// The arguments of the `helm` call that deploys: from the chart given, or else
/// from the embedded one, which lies in `embedded`.
pub fn deploy(opts: &DeployOpts, chart_override: Option<&str>, embedded: &str) -> (args: Vec<String>)
    ensures
        texts(args@) == helm_arg_list(
            opts@,
            match chart_override {
                Some(c) => c@,
                None => embedded@,
            },
        ),
{
    match chart_override {
        Some(c) => helm_args(opts, c),
        None => helm_args(opts, embedded),
    }
}

/// The arguments of `helm uninstall`.
pub fn uninstall(release: &str, namespace: &str) -> (args: Vec<String>)
    ensures
        texts(args@) == seq!["uninstall"@, release@, "--namespace"@, namespace@],
{
    let mut args: Vec<String> = Vec::new();
    push_text(&mut args, "uninstall");
    push_text(&mut args, release);
    push_text(&mut args, "--namespace");
    push_text(&mut args, namespace);
    assert(texts(args@) =~= seq!["uninstall"@, release@, "--namespace"@, namespace@]);
    args
}

/// The arguments of `docker` for a Compose action (`up`, `down`) on `file`.
pub fn compose(action: &str, file: &str, detach: bool) -> (args: Vec<String>)
    ensures
        texts(args@) == seq!["compose"@, "-f"@, file@, action@] + optional_arg(
            action@ == "up"@ && detach,
            "-d"@,
        ),
{
    let mut args: Vec<String> = Vec::new();
    push_text(&mut args, "compose");
    push_text(&mut args, "-f");
    push_text(&mut args, file);
    push_text(&mut args, action);
    if same_text(action, "up") && detach {
        push_text(&mut args, "-d");
    }
    assert(texts(args@) =~= seq!["compose"@, "-f"@, file@, action@] + optional_arg(
        action@ == "up"@ && detach,
        "-d"@,
    ));
    args
}

} // verus!
