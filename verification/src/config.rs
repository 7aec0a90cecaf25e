//! Configuration: the monitored targets, the storage and mail settings, and
//! the rules that build them from raw inputs.

use vstd::prelude::*;
use vstd::string::StringExecFns;
use crate::snapshot;
use crate::text;

verus! {

/// `s` without its trailing slashes.
pub open spec fn strip_trailing_slashes(s: Seq<char>) -> Seq<char>
    decreases s.len(),
{
    if s.len() > 0 && s.last() == '/' {
        strip_trailing_slashes(s.drop_last())
    } else {
        s
    }
}

/// The suffix of `s` after its last slash.
pub open spec fn last_segment(s: Seq<char>) -> Seq<char>
    decreases s.len(),
{
    if s.len() == 0 {
        Seq::<char>::empty()
    } else if s.last() == '/' {
        Seq::<char>::empty()
    } else {
        last_segment(s.drop_last()).push(s.last())
    }
}

/// The identifier a target derives from its address: the last non-empty
/// path segment once a trailing slash is stripped, or `unknown` if there is
/// none.
pub open spec fn campaign_key_spec(url: Seq<char>) -> Seq<char> {
    let seg = last_segment(strip_trailing_slashes(url));
    if seg.len() == 0 {
        "unknown"@
    } else {
        seg
    }
}

proof fn lemma_strip_trailing_take(s: Seq<char>, b: int)
    requires
        0 <= b <= s.len(),
        forall|k: int| b <= k < s.len() ==> s[k] == '/',
        b == 0 || s[b - 1] != '/',
    ensures
        strip_trailing_slashes(s) == s.take(b),
    decreases s.len() - b,
{
    if b == s.len() {
        assert(s.take(b) =~= s);
    } else {
        let t = s.drop_last();
        assert(forall|k: int| b <= k < t.len() ==> #[trigger] t[k] == '/');
        lemma_strip_trailing_take(t, b);
        assert(t.take(b) =~= s.take(b));
    }
}

proof fn lemma_last_segment_skip(s: Seq<char>, a: int)
    requires
        0 <= a <= s.len(),
        forall|k: int| a <= k < s.len() ==> s[k] != '/',
        a == 0 || s[a - 1] == '/',
    ensures
        last_segment(s) == s.skip(a),
    decreases s.len() - a,
{
    if a == s.len() {
        assert(s.skip(a) =~= Seq::<char>::empty());
        if s.len() > 0 {
            assert(s.last() == '/');
        }
    } else {
        let t = s.drop_last();
        assert(s.last() != '/');
        assert(forall|k: int| a <= k < t.len() ==> #[trigger] t[k] != '/');
        lemma_last_segment_skip(t, a);
        assert(t.skip(a).push(s.last()) =~= s.skip(a));
    }
}

/// Derives a target's identifier from its address.
pub fn campaign_key(url: &str) -> (r: String)
    ensures
        r@ == campaign_key_spec(url@),
{
    let v = text::chars_of(url);
    let n = v.len();
    let mut b: usize = n;
    while b > 0 && v[b - 1] == '/'
        invariant
            b <= n,
            n == v.len(),
            v@ == url@,
            forall|k: int| b <= k < n ==> v@[k] == '/',
        decreases b,
    {
        b -= 1;
    }
    proof {
        lemma_strip_trailing_take(v@, b as int);
    }
    let mut a: usize = b;
    while a > 0 && v[a - 1] != '/'
        invariant
            a <= b <= n,
            n == v.len(),
            v@ == url@,
            forall|k: int| a <= k < b ==> v@[k] != '/',
        decreases a,
    {
        a -= 1;
    }
    proof {
        let t = v@.take(b as int);
        assert(forall|k: int| a <= k < t.len() ==> #[trigger] t[k] != '/');
        if a > 0 {
            assert(t[a - 1] == '/');
        }
        lemma_last_segment_skip(t, a as int);
        assert(t.skip(a as int) =~= v@.subrange(a as int, b as int));
    }
    let seg = text::subvec(&v, a, b);
    if seg.len() == 0 {
        String::from_str("unknown")
    } else {
        text::string_of(&seg)
    }
}

/// The lines of a target-list file that name targets: trimmed, non-empty,
/// and not starting with the comment mark.
pub open spec fn url_list(s: Seq<char>) -> Seq<Seq<char>> {
    keep_urls(text::clean_lines(s))
}

/// Drops comment lines from a list of trimmed non-empty lines.
pub open spec fn keep_urls(ls: Seq<Seq<char>>) -> Seq<Seq<char>>
    decreases ls.len(),
{
    if ls.len() == 0 {
        Seq::<Seq<char>>::empty()
    } else {
        let r = keep_urls(ls.drop_last());
        if ls.last().len() > 0 && ls.last()[0] == '#' {
            r
        } else {
            r.push(ls.last())
        }
    }
}

/// Why a configuration cannot be built.
#[derive(Clone, Copy, Debug, PartialEq, Eq, Structural)]
pub enum ConfigError {
    /// No target address was given, on the command line or in the file.
    NoUrls,
    /// The storage account name is missing.
    MissingStorageAccount,
    /// Neither an access key nor a shared-access token was given.
    MissingCredentials,
    /// The mail service's key is missing.
    MissingMailKey,
    /// The mail service's domain is missing.
    MissingMailDomain,
    /// The notification recipient is missing.
    MissingRecipient,
    /// The check interval is not a plain decimal number that fits.
    BadInterval,
}

/// Reads a target-list text: one address per line, blank lines and lines
/// starting with the comment mark ignored; at least one address must
/// remain.
pub fn parse_url_list(s: &str) -> (r: Result<Vec<String>, ConfigError>)
    ensures
        match r {
            Result::Ok(urls) => url_list(s@).len() > 0 && text::str_seq_views(urls@) == url_list(
                s@,
            ),
            Result::Err(e) => url_list(s@).len() == 0 && e == ConfigError::NoUrls,
        },
{
    let v = text::chars_of(s);
    let lines = text::clean_lines_in(&v);
    let ghost lv = text::seq_views(lines@);
    let n = lines.len();
    let mut out: Vec<String> = Vec::new();
    let mut i: usize = 0;
    proof {
        assert(text::str_seq_views(out@) =~= keep_urls(lv.take(0)));
    }
    while i < n
        invariant
            n == lines.len(),
            i <= n,
            lv == text::seq_views(lines@),
            lv.len() == n,
            text::str_seq_views(out@) =~= keep_urls(lv.take(i as int)),
        decreases n - i,
    {
        proof {
            assert(lv.take(i as int + 1).drop_last() =~= lv.take(i as int));
            assert(lv.take(i as int + 1).last() == lv[i as int]);
            assert(lines@[i as int]@ == lv[i as int]);
        }
        let keep = lines[i].len() == 0 || lines[i][0] != '#';
        if keep {
            out.push(text::string_of(&lines[i]));
        }
        i += 1;
        proof {
            assert(text::str_seq_views(out@) =~= keep_urls(lv.take(i as int)));
        }
    }
    proof {
        assert(lv.take(n as int) =~= lv);
    }
    if out.len() == 0 {
        Err(ConfigError::NoUrls)
    } else {
        Ok(out)
    }
}

/// `ls` with every member kept once, at its first position.
pub open spec fn dedup_first(ls: Seq<Seq<char>>) -> Seq<Seq<char>>
    decreases ls.len(),
{
    if ls.len() == 0 {
        Seq::<Seq<char>>::empty()
    } else {
        let r = dedup_first(ls.drop_last());
        if r.contains(ls.last()) {
            r
        } else {
            r.push(ls.last())
        }
    }
}

/// Removes duplicate addresses, keeping first-seen order.
pub fn dedup_urls(urls: Vec<String>) -> (r: Vec<String>)
    ensures
        text::str_seq_views(r@) == dedup_first(text::str_seq_views(urls@)),
{
    let ghost uv = text::str_seq_views(urls@);
    let n = urls.len();
    let mut out: Vec<String> = Vec::new();
    let mut i: usize = 0;
    proof {
        assert(text::str_seq_views(out@) =~= dedup_first(uv.take(0)));
    }
    while i < n
        invariant
            n == urls.len(),
            i <= n,
            uv == text::str_seq_views(urls@),
            uv.len() == n,
            text::str_seq_views(out@) =~= dedup_first(uv.take(i as int)),
        decreases n - i,
    {
        proof {
            assert(uv.take(i as int + 1).drop_last() =~= uv.take(i as int));
            assert(uv.take(i as int + 1).last() == uv[i as int]);
            assert(urls@[i as int]@ == uv[i as int]);
        }
        let m = out.len();
        let mut seen = false;
        let mut j: usize = 0;
        while j < m
            invariant
                m == out.len(),
                j <= m,
                uv == text::str_seq_views(urls@),
                i < n == urls.len(),
                uv.len() == n,
                seen ==> text::str_seq_views(out@).contains(uv[i as int]),
                !seen ==> forall|k: int|
                    0 <= k < j ==> text::str_seq_views(out@)[k] != uv[i as int],
            decreases m - j,
        {
            if !seen && out[j] == urls[i] {
                seen = true;
                proof {
                    assert(text::str_seq_views(out@)[j as int] == uv[i as int]);
                }
            }
            j += 1;
        }
        proof {
            if !seen {
                assert(!text::str_seq_views(out@).contains(uv[i as int])) by {
                    if text::str_seq_views(out@).contains(uv[i as int]) {
                        let k = choose|k: int|
                            0 <= k < text::str_seq_views(out@).len() && text::str_seq_views(
                                out@,
                            )[k] == uv[i as int];
                        assert(text::str_seq_views(out@)[k] != uv[i as int]);
                    }
                }
            }
        }
        if !seen {
            out.push(urls[i].clone());
        }
        i += 1;
        proof {
            assert(text::str_seq_views(out@) =~= dedup_first(uv.take(i as int)));
        }
    }
    proof {
        assert(uv.take(n as int) =~= uv);
    }
    out
}

/// Whether `s` is a plain decimal number.
pub open spec fn all_digits(s: Seq<char>) -> bool {
    forall|k: int| 0 <= k < s.len() ==> snapshot::is_digit(#[trigger] s[k])
}

proof fn lemma_num_val_prefix(s: Seq<char>, k: int)
    requires
        0 <= k <= s.len(),
    ensures
        snapshot::num_val(s.take(k)) <= snapshot::num_val(s),
    decreases s.len() - k,
{
    if k == s.len() {
        assert(s.take(k) =~= s);
    } else {
        assert(s.take(k + 1).drop_last() =~= s.take(k));
        assert(snapshot::num_val(s.take(k + 1)) == snapshot::num_val(s.take(k)) * 10
            + snapshot::digit_val(s.take(k + 1).last()));
        lemma_num_val_prefix(s, k + 1);
    }
}

/// Reads the check interval in minutes: absent means the default of 60;
/// otherwise the text must be a non-empty run of decimal digits whose value
/// fits a 64-bit count.
pub fn parse_interval(s: &Option<String>) -> (r: Result<u64, ConfigError>)
    ensures
        match r {
            Result::Ok(v) => match s {
                Option::None => v == 60,
                Option::Some(t) => t@.len() > 0 && all_digits(t@) && snapshot::num_val(t@) == v,
            },
            Result::Err(e) => e == ConfigError::BadInterval && (match s {
                Option::None => false,
                Option::Some(t) => t@.len() == 0 || !all_digits(t@) || snapshot::num_val(t@)
                    > u64::MAX,
            }),
        },
{
    match s {
        Option::None => Ok(60),
        Option::Some(t) => {
            let v = text::chars_of(t.as_str());
            let n = v.len();
            if n == 0 {
                return Err(ConfigError::BadInterval);
            }
            let mut acc: u64 = 0;
            let mut i: usize = 0;
            while i < n
                invariant
                    n == v.len(),
                    v@ == t@,
                    s is Some,
                    s->0@ == v@,
                    i <= n,
                    all_digits(v@.take(i as int)),
                    acc == snapshot::num_val(v@.take(i as int)),
                decreases n - i,
            {
                let c = v[i];
                if !(c >= '0' && c <= '9') {
                    proof {
                        assert(!snapshot::is_digit(v@[i as int]));
                        assert(!all_digits(t@)) by {
                            assert(t@[i as int] == v@[i as int]);
                        }
                    }
                    return Err(ConfigError::BadInterval);
                }
                let d = (c as u32) - 48;
                proof {
                    assert(v@.take(i as int + 1).drop_last() =~= v@.take(i as int));
                    assert(v@.take(i as int + 1).last() == v@[i as int]);
                    assert(snapshot::digit_val(v@[i as int]) == d);
                    assert(snapshot::num_val(v@.take(i as int + 1)) == acc * 10 + d);
                }
                let big = acc > u64::MAX / 10 || (acc == u64::MAX / 10 && (d as u64) > u64::MAX
                    % 10);
                if big {
                    proof {
                        assert(acc * 10 + d > u64::MAX) by {
                            if acc > u64::MAX / 10 {
                                assert(acc >= u64::MAX / 10 + 1);
                                assert(acc * 10 >= (u64::MAX / 10 + 1) * 10) by (nonlinear_arith)
                                    requires
                                        acc >= u64::MAX / 10 + 1,
                                ;
                            }
                        }
                        assert(snapshot::num_val(v@.take(i as int + 1)) > u64::MAX);
                        lemma_num_val_prefix(v@, i as int + 1);
                        assert(snapshot::num_val(v@) > u64::MAX);
                    }
                    return Err(ConfigError::BadInterval);
                }
                acc = acc * 10 + (d as u64);
                i += 1;
            }
            proof {
                assert(v@.take(n as int) =~= v@);
            }
            Ok(acc)
        },
    }
}

/// The given interval setting is acceptable: absent, or a non-empty digit
/// run whose value fits a 64-bit count.
pub open spec fn interval_ok(interval: Option<String>) -> bool {
    match interval {
        Option::None => true,
        Option::Some(t) => t@.len() > 0 && all_digits(t@) && snapshot::num_val(t@) <= u64::MAX,
    }
}

/// One monitored target: its address, its derived identifier, and the
/// best-effort display title.
#[derive(Debug)]
pub struct Campaign {
    pub url: String,
    pub key: String,
    pub track_title: Option<String>,
}

/// How the snapshot store authenticates.
#[derive(Debug)]
pub enum StorageAuth {
    /// A storage access key.
    AccessKey(String),
    /// A shared-access token.
    SasToken(String),
}

/// The immutable configuration the monitor runs with.
#[derive(Debug)]
pub struct Config {
    pub campaigns: Vec<Campaign>,
    pub storage_account: String,
    pub storage_auth: StorageAuth,
    pub storage_container: String,
    pub blob_name_prefix: String,
    pub mail_api_key: String,
    pub mail_domain: String,
    pub recipient_email: String,
    pub from_email: String,
    pub check_interval_minutes: u64,
}

/// Builds the configuration from the raw settings, with the same defaults
/// and the same required settings as the environment the program reads:
/// the storage account, one of the two credentials, the mail key, the mail
/// domain and the recipient are required; container, blob prefix, sender
/// and interval have defaults.
pub fn build_config(
    urls: Vec<String>,
    storage_account: Option<String>,
    access_key: Option<String>,
    sas_token: Option<String>,
    container: Option<String>,
    prefix: Option<String>,
    mail_api_key: Option<String>,
    mail_domain: Option<String>,
    recipient: Option<String>,
    from_email: Option<String>,
    interval: Option<String>,
) -> (r: Result<Config, ConfigError>)
    ensures
        r is Ok <==> storage_account is Some && (access_key is Some || sas_token is Some)
            && mail_api_key is Some && mail_domain is Some && recipient is Some && interval_ok(
            interval,
        ),
        (r is Err && r->Err_0 == ConfigError::MissingStorageAccount) <==> storage_account is None,
        (r is Err && r->Err_0 == ConfigError::MissingCredentials) <==> storage_account is Some
            && access_key is None && sas_token is None,
        (r is Err && r->Err_0 == ConfigError::MissingMailKey) <==> storage_account is Some && (
        access_key is Some || sas_token is Some) && mail_api_key is None,
        (r is Err && r->Err_0 == ConfigError::MissingMailDomain) <==> storage_account is Some && (
        access_key is Some || sas_token is Some) && mail_api_key is Some && mail_domain is None,
        (r is Err && r->Err_0 == ConfigError::MissingRecipient) <==> storage_account is Some && (
        access_key is Some || sas_token is Some) && mail_api_key is Some && mail_domain is Some
            && recipient is None,
        r is Ok ==> {
            let c = r->Ok_0;
            &&& storage_account is Some && c.storage_account == storage_account->0
            &&& (match (access_key, sas_token) {
                (Option::Some(k), _) => c.storage_auth == StorageAuth::AccessKey(k),
                (Option::None, Option::Some(t)) => c.storage_auth == StorageAuth::SasToken(t),
                _ => false,
            })
            &&& c.storage_container@ == (match container {
                Option::Some(v) => v@,
                Option::None => "inflyte-dj-monitor"@,
            })
            &&& c.blob_name_prefix@ == (match prefix {
                Option::Some(v) => v@,
                Option::None => "dj_list"@,
            })
            &&& mail_api_key is Some && c.mail_api_key == mail_api_key->0
            &&& mail_domain is Some && c.mail_domain == mail_domain->0
            &&& recipient is Some && c.recipient_email == recipient->0
            &&& c.from_email@ == (match from_email {
                Option::Some(v) => v@,
                Option::None => "noreply@inflyte.com"@,
            })
            &&& (match interval {
                Option::None => c.check_interval_minutes == 60,
                Option::Some(t) => t@.len() > 0 && all_digits(t@) && snapshot::num_val(t@)
                    == c.check_interval_minutes,
            })
            &&& c.campaigns@.len() == urls@.len()
            &&& forall|k: int|
                0 <= k < urls@.len() ==> (#[trigger] c.campaigns@[k]).url == urls@[k]
                    && c.campaigns@[k].key@ == campaign_key_spec(urls@[k]@)
                    && c.campaigns@[k].track_title is None
        },
        (r is Err && r->Err_0 == ConfigError::BadInterval) <==> storage_account is Some && (
        access_key is Some || sas_token is Some) && mail_api_key is Some && mail_domain is Some
            && recipient is Some && !interval_ok(interval),
{
    let storage_account = match storage_account {
        Option::Some(v) => v,
        Option::None => {
            return Err(ConfigError::MissingStorageAccount);
        },
    };
    let storage_auth = match (access_key, sas_token) {
        (Option::Some(k), _) => StorageAuth::AccessKey(k),
        (Option::None, Option::Some(t)) => StorageAuth::SasToken(t),
        (Option::None, Option::None) => {
            return Err(ConfigError::MissingCredentials);
        },
    };
    let mail_api_key = match mail_api_key {
        Option::Some(v) => v,
        Option::None => {
            return Err(ConfigError::MissingMailKey);
        },
    };
    let mail_domain = match mail_domain {
        Option::Some(v) => v,
        Option::None => {
            return Err(ConfigError::MissingMailDomain);
        },
    };
    let recipient_email = match recipient {
        Option::Some(v) => v,
        Option::None => {
            return Err(ConfigError::MissingRecipient);
        },
    };
    let check_interval_minutes = match parse_interval(&interval) {
        Result::Ok(v) => v,
        Result::Err(_) => {
            return Err(ConfigError::BadInterval);
        },
    };
    let n = urls.len();
    let mut campaigns: Vec<Campaign> = Vec::new();
    let mut i: usize = 0;
    while i < n
        invariant
            n == urls.len(),
            i <= n,
            campaigns@.len() == i,
            forall|k: int|
                0 <= k < i ==> (#[trigger] campaigns@[k]).url == urls@[k]
                    && campaigns@[k].key@ == campaign_key_spec(urls@[k]@)
                    && campaigns@[k].track_title is None,
        decreases n - i,
    {
        let url = urls[i].clone();
        let key = campaign_key(url.as_str());
        proof {
            assert(url == urls@[i as int]);
        }
        campaigns.push(Campaign { url, key, track_title: None });
        i += 1;
    }
    let storage_container = match container {
        Option::Some(v) => v,
        Option::None => String::from_str("inflyte-dj-monitor"),
    };
    let blob_name_prefix = match prefix {
        Option::Some(v) => v,
        Option::None => String::from_str("dj_list"),
    };
    let from_email = match from_email {
        Option::Some(v) => v,
        Option::None => String::from_str("noreply@inflyte.com"),
    };
    Ok(
        Config {
            campaigns,
            storage_account,
            storage_auth,
            storage_container,
            blob_name_prefix,
            mail_api_key,
            mail_domain,
            recipient_email,
            from_email,
            check_interval_minutes,
        },
    )
}

/// The name of the blob a target's snapshot is stored under:
/// `prefix_key.json`.
pub fn blob_name(config: &Config, campaign: &Campaign) -> (r: String)
    ensures
        r@ == config.blob_name_prefix@ + "_"@ + campaign.key@ + ".json"@,
{
    let mut r = config.blob_name_prefix.clone();
    r.append("_");
    r.append(campaign.key.as_str());
    r.append(".json");
    r
}

} // verus!
