//! The remote cache's verified half: the configuration model, the decision
//! of whether a remote cache is active, the artifact key layout, and
//! presigned URLs for the object store. The HTTP transfers themselves live
//! with the embedding program, as does reading and writing the
//! configuration file.

use vstd::prelude::*;
use rusty_s3::S3Action;

verus! {

/// The user's remote cache configuration.
#[derive(Debug)]
pub struct CloudConfig {
    pub s3: Option<S3Config>,
}

/// Credentials and location of an S3-compatible object store.
#[derive(Debug)]
pub struct S3Config {
    pub endpoint: String,
    pub bucket: String,
    pub region: String,
    pub access_key: String,
    pub secret_key: String,
    pub enabled: bool,
}

/// The default of the `enabled` flag when the configuration omits it.
pub fn default_true() -> (r: bool)
    ensures
        r,
{
    true
}

impl Default for S3Config {
    /// An empty configuration for the automatic region, enabled.
    fn default() -> (r: S3Config)
        ensures
            r.endpoint@.len() == 0,
            r.bucket@.len() == 0,
            r.region@ == "auto"@,
            r.access_key@.len() == 0,
            r.secret_key@.len() == 0,
            r.enabled,
    {
        S3Config {
            endpoint: String::new(),
            bucket: String::new(),
            region: String::from_str("auto"),
            access_key: String::new(),
            secret_key: String::new(),
            enabled: true,
        }
    }
}

impl Default for CloudConfig {
    /// No remote cache configured.
    fn default() -> (r: CloudConfig)
        ensures
            r.s3 is None,
    {
        CloudConfig { s3: None }
    }
}

/// Remote cache construction failure.
#[derive(Debug)]
pub struct CloudError {
    pub message: String,
}

/// An identical copy of the configuration, field by field.
fn duplicate_config(c: &S3Config) -> (r: S3Config)
    ensures
        r.endpoint@ == c.endpoint@,
        r.bucket@ == c.bucket@,
        r.region@ == c.region@,
        r.access_key@ == c.access_key@,
        r.secret_key@ == c.secret_key@,
        r.enabled == c.enabled,
{
    S3Config {
        endpoint: c.endpoint.clone(),
        bucket: c.bucket.clone(),
        region: c.region.clone(),
        access_key: c.access_key.clone(),
        secret_key: c.secret_key.clone(),
        enabled: c.enabled,
    }
}

/// Whether a bucket can be formed over the endpoint, name and region: the
/// endpoint is a well-formed http or https URL with a host and the bucket
/// path joins onto it. A pure function of the three strings, so it carries a
/// name; what holds of concrete values is only ever observed by running the
/// validation.
pub uninterp spec fn bucket_ok(endpoint: Seq<char>, bucket: Seq<char>, region: Seq<char>) -> bool;

/// An object key the signer accepts: one that does not begin with two
/// slashes, which the URL join inside the signer would read as an authority
/// and reject.
pub open spec fn safe_object_key(k: Seq<char>) -> bool {
    !(k.len() >= 2 && k[0] == '/' && k[1] == '/')
}

/// Relies on `url::Url::parse` and `rusty_s3::Bucket::new`: whether the
/// configured endpoint is a well-formed http or https URL with a host, so
/// that a bucket can be built over it. Deterministic in the configuration.
#[verifier::external_body]
fn endpoint_valid(cfg: &S3Config) -> (r: bool)
    ensures
        r == bucket_ok(cfg.endpoint@, cfg.bucket@, cfg.region@),
{
    match cfg.endpoint.parse::<url::Url>() {
        Ok(u) => rusty_s3::Bucket::new(
            u,
            rusty_s3::UrlStyle::Path,
            cfg.bucket.clone(),
            cfg.region.clone(),
        ).is_ok(),
        Err(_) => false,
    }
}

/// Relies on `rusty_s3`'s `Bucket::put_object` and `S3Action::sign`: a
/// presigned upload URL for the object, valid for the given lifetime: one
/// exists exactly when the endpoint forms a bucket. The URL itself depends
/// on the current clock, so nothing more is stated of it. A key beginning
/// with two slashes is left out: signing such a key panics inside the
/// signer.
#[verifier::external_body]
fn presign_put(cfg: &S3Config, object: &String, secs: u64) -> (r: Option<String>)
    requires
        safe_object_key(object@),
    ensures
        r is Some <==> bucket_ok(cfg.endpoint@, cfg.bucket@, cfg.region@),
{
    let u = cfg.endpoint.parse::<url::Url>().ok()?;
    let bucket = rusty_s3::Bucket::new(
        u,
        rusty_s3::UrlStyle::Path,
        cfg.bucket.clone(),
        cfg.region.clone(),
    ).ok()?;
    let creds = rusty_s3::Credentials::new(cfg.access_key.clone(), cfg.secret_key.clone());
    let action = bucket.put_object(Some(&creds), object.as_str());
    Some(action.sign(std::time::Duration::from_secs(secs)).to_string())
}

/// Relies on `rusty_s3`'s `Bucket::get_object` and `S3Action::sign`: a
/// presigned download URL for the object: one exists exactly when the
/// endpoint forms a bucket. A key beginning with two slashes is left out:
/// signing such a key panics inside the signer.
#[verifier::external_body]
fn presign_get(cfg: &S3Config, object: &String, secs: u64) -> (r: Option<String>)
    requires
        safe_object_key(object@),
    ensures
        r is Some <==> bucket_ok(cfg.endpoint@, cfg.bucket@, cfg.region@),
{
    let u = cfg.endpoint.parse::<url::Url>().ok()?;
    let bucket = rusty_s3::Bucket::new(
        u,
        rusty_s3::UrlStyle::Path,
        cfg.bucket.clone(),
        cfg.region.clone(),
    ).ok()?;
    let creds = rusty_s3::Credentials::new(cfg.access_key.clone(), cfg.secret_key.clone());
    let action = bucket.get_object(Some(&creds), object.as_str());
    Some(action.sign(std::time::Duration::from_secs(secs)).to_string())
}

/// Relies on `rusty_s3`'s `Bucket::list_objects_v2` with one key and
/// `S3Action::sign`: a presigned listing URL used as a reachability probe;
/// one exists exactly when the endpoint forms a bucket.
#[verifier::external_body]
fn presign_list(cfg: &S3Config, secs: u64) -> (r: Option<String>)
    ensures
        r is Some <==> bucket_ok(cfg.endpoint@, cfg.bucket@, cfg.region@),
{
    let u = cfg.endpoint.parse::<url::Url>().ok()?;
    let bucket = rusty_s3::Bucket::new(
        u,
        rusty_s3::UrlStyle::Path,
        cfg.bucket.clone(),
        cfg.region.clone(),
    ).ok()?;
    let creds = rusty_s3::Credentials::new(cfg.access_key.clone(), cfg.secret_key.clone());
    let mut action = bucket.list_objects_v2(Some(&creds));
    action.with_max_keys(1);
    Some(action.sign(std::time::Duration::from_secs(secs)).to_string())
}

/// The object key an artifact is stored under.
pub fn artifact_key(hash: &String) -> (r: String)
    ensures
        r@ == "artifacts/"@ + hash@,
{
    let mut r = String::from_str("artifacts/");
    r.append(hash.as_str());
    r
}

/// The remote cache client: a validated configuration. Uploads and
/// downloads go over presigned URLs the client computes.
pub struct CloudCache {
    config: S3Config,
}

impl CloudCache {
    /// The held configuration.
    pub closed spec fn spec_config(self) -> S3Config {
        self.config
    }

    /// Build a client over the configuration; rejected exactly when the
    /// endpoint cannot form a bucket.
    pub fn from_config(config: &S3Config) -> (r: Result<CloudCache, CloudError>)
        ensures
            r is Ok <==> bucket_ok(config.endpoint@, config.bucket@, config.region@),
            r matches Ok(c) ==> c.spec_config().enabled == config.enabled
                && c.spec_config().endpoint@ == config.endpoint@
                && c.spec_config().bucket@ == config.bucket@
                && c.spec_config().region@ == config.region@,
    {
        if endpoint_valid(config) {
            Ok(CloudCache { config: duplicate_config(config) })
        } else {
            Err(CloudError { message: String::from_str("invalid endpoint URL") })
        }
    }

    /// Build a client from the loaded configuration: `None` when no remote
    /// cache is configured or it is disabled or empty, distinguishing a
    /// missing configuration from a broken one.
    pub fn try_new(config: &CloudConfig) -> (r: Result<Option<CloudCache>, CloudError>)
        ensures
            config.s3 is None ==> (r matches Ok(o) && o is None),
            (config.s3 matches Some(s3) && (!s3.enabled || s3.endpoint@.len() == 0)) ==> (
            r matches Ok(o) && o is None),
            config.s3 matches Some(s3) ==> ((s3.enabled && s3.endpoint@.len() > 0) ==> (r is Err
                <==> !bucket_ok(s3.endpoint@, s3.bucket@, s3.region@))),
            config.s3 matches Some(s3) ==> ((s3.enabled && s3.endpoint@.len() > 0 && bucket_ok(
                s3.endpoint@,
                s3.bucket@,
                s3.region@,
            )) ==> (r matches Ok(o) && o matches Some(c) && c.spec_config().enabled)),
    {
        match &config.s3 {
            Some(s3) => {
                if s3.enabled && s3.endpoint.as_str().unicode_len() > 0 {
                    match Self::from_config(s3) {
                        Ok(c) => Ok(Some(c)),
                        Err(e) => Err(e),
                    }
                } else {
                    Ok(None)
                }
            },
            None => Ok(None),
        }
    }

    /// Whether transfers are enabled.
    pub fn is_enabled(&self) -> (r: bool)
        ensures
            r == self.spec_config().enabled,
    {
        self.config.enabled
    }

    /// The presigned upload URL for an artifact, valid a few minutes; `None`
    /// when transfers are disabled, making the upload a successful no-op.
    /// With transfers enabled, a URL exists exactly when the endpoint forms
    /// a bucket.
    pub fn upload_url(&self, hash: &String) -> (r: Option<String>)
        ensures
            !self.spec_config().enabled ==> r is None,
            self.spec_config().enabled ==> (r is Some <==> bucket_ok(
                self.spec_config().endpoint@,
                self.spec_config().bucket@,
                self.spec_config().region@,
            )),
    {
        if !self.config.enabled {
            return None;
        }
        let key = artifact_key(hash);
        proof {
            reveal_strlit("artifacts/");
            assert(key@[0] == 'a');
        }
        presign_put(&self.config, &key, 300)
    }

    /// The presigned download URL for an artifact; `None` when transfers are
    /// disabled, making the lookup a miss. With transfers enabled, a URL
    /// exists exactly when the endpoint forms a bucket.
    pub fn download_url(&self, hash: &String) -> (r: Option<String>)
        ensures
            !self.spec_config().enabled ==> r is None,
            self.spec_config().enabled ==> (r is Some <==> bucket_ok(
                self.spec_config().endpoint@,
                self.spec_config().bucket@,
                self.spec_config().region@,
            )),
    {
        if !self.config.enabled {
            return None;
        }
        let key = artifact_key(hash);
        proof {
            reveal_strlit("artifacts/");
            assert(key@[0] == 'a');
        }
        presign_get(&self.config, &key, 300)
    }

    /// The presigned probe URL checking reachability and credentials, valid
    /// a short moment; one exists exactly when the endpoint forms a bucket.
    pub fn ping_url(&self) -> (r: Option<String>)
        ensures
            r is Some <==> bucket_ok(
                self.spec_config().endpoint@,
                self.spec_config().bucket@,
                self.spec_config().region@,
            ),
    {
        presign_list(&self.config, 30)
    }
}

} // verus!
