//! What a client of the file service computes around its requests: how keys
//! are batched, what a buffer collects, and how answers are judged.

use itertools::Itertools;
use vstd::prelude::*;
use vstd::string::StringExecFns;

verus! {

/// The number of batches of `batch_size` that `num_keys` keys take.
pub open spec fn batches_needed(num_keys: int, batch_size: int) -> int {
    (num_keys + batch_size - 1) / batch_size
}

/// `batches` are `keys` cut into runs of `batch_size`, the last of which
/// may be shorter.
pub open spec fn is_batching<T>(keys: Seq<T>, batch_size: int, batches: Seq<Vec<T>>) -> bool {
    &&& batches.len() == batches_needed(keys.len() as int, batch_size)
    &&& forall|i: int|
        0 <= i < batches.len() ==> (#[trigger] batches[i])@ == keys.subrange(
            i * batch_size,
            if (i + 1) * batch_size <= keys.len() {
                (i + 1) * batch_size
            } else {
                keys.len() as int
            },
        )
}

/// The size of the batches in which keys are asked for: the size that was
/// configured, or all keys in one batch.
pub fn batch_size_for(configured: Option<usize>, num_keys: usize) -> (size: usize)
    ensures
        size == match configured {
            Some(size) => size,
            None => if num_keys >= 1 {
                num_keys
            } else {
                1
            },
        },
{
    match configured {
        Some(size) => size,
        None => if num_keys >= 1 {
            num_keys
        } else {
            1
        },
    }
}

/// The number of requests that `num_keys` keys take in batches of `batch_size`.
pub fn num_requests(num_keys: usize, batch_size: usize) -> (n: usize)
    requires
        batch_size > 0,
    ensures
        n == batches_needed(num_keys as int, batch_size as int),
{
    if num_keys == 0 {
        proof {
            assert((batch_size - 1) / (batch_size as int) == 0) by (nonlinear_arith)
                requires
                    batch_size > 0,
            ;
        }
        0
    } else {
        let full = (num_keys - 1) / batch_size;
        proof {
            let a = (num_keys - 1) as int;
            let b = batch_size as int;
            assert((a + b) / b == a / b + 1) by (nonlinear_arith)
                requires
                    a >= 0,
                    b > 0,
            ;
            assert(a / b <= a) by (nonlinear_arith)
                requires
                    a >= 0,
                    b > 0,
            ;
        }
        full + 1
    }
}

/// The keys in runs of `size`, as `Itertools::chunks` gives them: each run
/// but the last has `size` keys, and the last has what is left.
#[verifier::external_body]
fn chunked<T>(keys: Vec<T>, size: usize) -> (batches: Vec<Vec<T>>)
    requires
        size > 0,
    ensures
        is_batching(keys@, size as int, batches@),
{
    let chunks = keys.into_iter().chunks(size);
    (&chunks).into_iter().map(|batch| batch.collect()).collect()
}

/// The keys in the batches in which they are asked for.
pub fn batches<T>(keys: Vec<T>, configured: Option<usize>) -> (batches: Vec<Vec<T>>)
    requires
        configured != Some(0usize),
    ensures
        is_batching(
            keys@,
            match configured {
                Some(size) => size as int,
                None => if keys.len() >= 1 {
                    keys.len() as int
                } else {
                    1
                },
            },
            batches@,
        ),
{
    let size = batch_size_for(configured, keys.len());
    chunked(keys, size)
}

/// A buffer that collects what is received.
pub struct Collector(pub Vec<u8>);

impl Collector {
    /// The empty buffer.
    pub fn new() -> (collector: Collector)
        ensures
            collector.0@ == Seq::<u8>::empty(),
    {
        Collector(Vec::new())
    }

    /// Takes in what was received, and says how much of it was taken: all.
    pub fn write(&mut self, data: &[u8]) -> (written: usize)
        ensures
            final(self).0@ == old(self).0@ + data@,
            written == data@.len(),
    {
        self.0.extend_from_slice(data);
        proof {
            assert(self.0@ =~= old(self).0@ + data@);
        }
        data.len()
    }
}

/// What can be wrong with the answer to a health check.
#[derive(Debug, PartialEq, Eq)]
pub enum HealthCheckError {
    /// The status code of the answer is not 200.
    StatusCode(u32),
    /// The answer is not the one that a healthy server gives.
    UnexpectedResponse(String),
}

/// Judges the answer to a health check: the status code has to be 200 and
/// the text the one that a healthy server gives.
pub fn check_health(code: u32, response: String) -> (r: Result<(), HealthCheckError>)
    ensures
        r == (if code != 200 {
            Err::<(), HealthCheckError>(HealthCheckError::StatusCode(code))
        } else if response@ != "I_AM_ALIVE"@ {
            Err(HealthCheckError::UnexpectedResponse(response))
        } else {
            Ok(())
        }),
{
    if code != 200 {
        return Err(HealthCheckError::StatusCode(code));
    }
    let alive = "I_AM_ALIVE".to_owned();
    if response != alive {
        return Err(HealthCheckError::UnexpectedResponse(response));
    }
    Ok(())
}

/// What a client is told to use. Anything may be missing.
#[derive(Debug)]
pub struct Config {
    pub base_url: Option<String>,
    pub repo: Option<String>,
    pub cache_path: Option<String>,
    pub data_batch_size: Option<usize>,
    pub history_batch_size: Option<usize>,
}

/// What a client uses.
#[derive(Debug, PartialEq, Eq)]
pub struct Settings {
    pub base_url: String,
    pub repo: String,
    pub cache_path: String,
    pub data_batch_size: Option<usize>,
    pub history_batch_size: Option<usize>,
    pub validate: bool,
}

/// What can be wrong with what a client is told to use.
#[derive(Debug, PartialEq, Eq)]
pub enum ConfigError {
    NoBaseUrl,
    NoRepo,
    NoCachePath,
    /// The cache path is not a directory.
    CachePathNotDirectory(String),
}

/// Settles what a client uses. The base URL, the name of the repository and
/// the cache path have to be there, in that order, and the cache path has
/// to be a directory, which `cache_path_is_dir` says.
pub fn settle(config: Config, cache_path_is_dir: bool) -> (r: Result<Settings, ConfigError>)
    ensures
        r == (match (config.base_url, config.repo, config.cache_path) {
            (None, _, _) => Err::<Settings, ConfigError>(ConfigError::NoBaseUrl),
            (Some(_), None, _) => Err(ConfigError::NoRepo),
            (Some(_), Some(_), None) => Err(ConfigError::NoCachePath),
            (Some(base_url), Some(repo), Some(cache_path)) => if cache_path_is_dir {
                Ok(
                    Settings {
                        base_url,
                        repo,
                        cache_path,
                        data_batch_size: config.data_batch_size,
                        history_batch_size: config.history_batch_size,
                        validate: true,
                    },
                )
            } else {
                Err(ConfigError::CachePathNotDirectory(cache_path))
            },
        }),
{
    let base_url = match config.base_url {
        Some(url) => url,
        None => {
            return Err(ConfigError::NoBaseUrl);
        },
    };
    let repo = match config.repo {
        Some(repo) => repo,
        None => {
            return Err(ConfigError::NoRepo);
        },
    };
    let cache_path = match config.cache_path {
        Some(path) => path,
        None => {
            return Err(ConfigError::NoCachePath);
        },
    };
    if !cache_path_is_dir {
        return Err(ConfigError::CachePathNotDirectory(cache_path));
    }
    Ok(
        Settings {
            base_url,
            repo,
            cache_path,
            data_batch_size: config.data_batch_size,
            history_batch_size: config.history_batch_size,
            validate: true,
        },
    )
}

/// What joining `relative` to the URL `base` gives, as a text; `None`
/// where `base` cannot be read as a URL or `relative` cannot be joined to it.
pub uninterp spec fn url_joined(base: Seq<char>, relative: Seq<char>) -> Option<Seq<char>>;

/// A failure to read a URL, `url::ParseError`: carried through, never
/// looked into.
#[verifier::external_type_specification]
#[verifier::external_body]
pub struct ExUrlParseError(url::ParseError);

/// Joins `relative` to the URL `base`: `Url::join`, on the URL that
/// `Url::parse` reads from `base`, written out again as a text.
#[verifier::external_body]
fn join_url(base: &str, relative: &str) -> (r: Result<String, url::ParseError>)
    ensures
        match r {
            Ok(joined) => url_joined(base@, relative@) == Some(joined@),
            Err(_) => url_joined(base@, relative@) is None,
        },
{
    Ok(url::Url::parse(base)?.join(relative)?.into())
}

/// What `Display` writes for a failure to read a URL.
#[verifier::external_body]
fn url_error_text(error: &url::ParseError) -> (text: String) {
    error.to_string()
}

/// A URL that cannot be read or made.
#[derive(Debug, PartialEq, Eq)]
pub struct UrlError {
    /// What is wrong with it.
    pub reason: String,
}

/// What a client asks a server for.
#[derive(Clone, Copy, PartialEq, Eq, Structural, Debug)]
pub enum Endpoint {
    /// Whether the server is alive.
    HealthCheck,
    /// The content of files.
    Data,
    /// The history of files.
    History,
}

/// The URL under which the repository `repo` is served from `base_url`.
pub open spec fn repo_url_of(base_url: Seq<char>, repo: Seq<char>) -> Option<Seq<char>> {
    url_joined(base_url, repo + "/"@)
}

/// The URL of an endpoint: the health check is at the root of the server,
/// the rest under the repository.
pub open spec fn endpoint_url_of(base_url: Seq<char>, repo: Seq<char>, endpoint: Endpoint) -> Option<
    Seq<char>,
> {
    match endpoint {
        Endpoint::HealthCheck => url_joined(base_url, "/health_check"@),
        Endpoint::Data => match repo_url_of(base_url, repo) {
            Some(repo_url) => url_joined(repo_url, "eden/data"@),
            None => None,
        },
        Endpoint::History => match repo_url_of(base_url, repo) {
            Some(repo_url) => url_joined(repo_url, "eden/history"@),
            None => None,
        },
    }
}

/// Joins `relative` to the URL `base`.
pub fn join(base: &str, relative: &str) -> (r: Result<String, UrlError>)
    ensures
        match r {
            Ok(joined) => url_joined(base@, relative@) == Some(joined@),
            Err(_) => url_joined(base@, relative@) is None,
        },
{
    match join_url(base, relative) {
        Ok(joined) => Ok(joined),
        Err(error) => Err(UrlError { reason: url_error_text(&error) }),
    }
}

/// The URL under which the repository `repo` is served from `base_url`.
pub fn repo_base_url(base_url: &str, repo: &str) -> (r: Result<String, UrlError>)
    ensures
        match r {
            Ok(url) => repo_url_of(base_url@, repo@) == Some(url@),
            Err(_) => repo_url_of(base_url@, repo@) is None,
        },
{
    let mut relative = String::from_str(repo);
    relative.append("/");
    join(base_url, relative.as_str())
}

/// The URL of an endpoint for a client with the given settings.
pub fn endpoint_url(settings: &Settings, endpoint: Endpoint) -> (r: Result<String, UrlError>)
    ensures
        match r {
            Ok(url) => endpoint_url_of(settings.base_url@, settings.repo@, endpoint) == Some(url@),
            Err(_) => endpoint_url_of(settings.base_url@, settings.repo@, endpoint) is None,
        },
{
    match endpoint {
        Endpoint::HealthCheck => join(settings.base_url.as_str(), "/health_check"),
        Endpoint::Data => {
            let repo_url = repo_base_url(settings.base_url.as_str(), settings.repo.as_str())?;
            join(repo_url.as_str(), "eden/data")
        },
        Endpoint::History => {
            let repo_url = repo_base_url(settings.base_url.as_str(), settings.repo.as_str())?;
            join(repo_url.as_str(), "eden/history")
        },
    }
}

} // verus!
