use std::collections::HashMap;

use vstd::prelude::*;

verus! {

/// The bucket size of a run when none is given.
pub const DEFAULT_BUCKET_SIZE: u32 = 2_000_000;

/// The environment variable that holds the database URL.
pub const DATABASE_URL_KEY: &'static str = "DATABASE_URL";

/// `env` maps a key spelled `key` to `value`.
pub open spec fn env_maps(env: Map<String, String>, key: Seq<char>, value: String) -> bool {
    exists|k: String| k@ == key && env.contains_key(k) && env[k] == value
}

/// `env` has a key spelled `key`.
pub open spec fn env_has(env: Map<String, String>, key: Seq<char>) -> bool {
    exists|k: String| k@ == key && env.contains_key(k)
}

/// Relies on `HashMap::get` with a `&str` key on a map keyed by `String`: a
/// `String` borrows as the `str` of its characters, so the lookup returns the
/// value of the key spelled like `key`, if there is one.
#[verifier::external_body]
fn lookup<'a>(map: &'a HashMap<String, String>, key: &str) -> (r: Option<&'a String>)
    ensures
        r matches Some(v) ==> env_maps(map@, key@, *v),
        r is None ==> !env_has(map@, key@),
{
    map.get(key)
}

/// A run's settings, borrowed from the command line and the environment.
pub struct Options<'a> {
    pub output_location: &'a String,
    pub experiment_accession_id: &'a String,
    pub assembly_name: &'a String,
    pub connection_string: &'a String,
    pub bucket_size: u32,
    pub chromo: Option<&'a String>,
}

/// Why the command line could not be read.
#[derive(Copy, Clone, Debug, PartialEq, Eq, Structural)]
pub enum ArgsError {
    /// Fewer than the output location, accession and assembly were given.
    MissingArgument,
    /// The environment lacks the database URL.
    MissingDatabaseUrl,
    /// The bucket size is not a positive decimal `u32`.
    InvalidBucketSize,
}

/// The value of a string of decimal digits.
pub open spec fn digits_value(s: Seq<char>) -> int
    decreases s.len(),
{
    if s.len() == 0 {
        0
    } else {
        digits_value(s.drop_last()) * 10 + (s.last() as int - '0' as int)
    }
}

/// The `u32` that a string spells in decimal: an optional `+`, then at least
/// one digit, and nothing else.
pub open spec fn decimal_u32(s: Seq<char>) -> Option<u32> {
    let d = if s.len() > 0 && s[0] == '+' {
        s.skip(1)
    } else {
        s
    };
    if d.len() > 0 && (forall|i: int| 0 <= i < d.len() ==> '0' <= #[trigger] d[i] <= '9')
        && digits_value(d) <= u32::MAX {
        Some(digits_value(d) as u32)
    } else {
        None
    }
}

/// Relies on `u32::from_str_radix` with radix 10: it accepts an optional `+`
/// followed by decimal digits whose value fits in a `u32`, and nothing else.
#[verifier::external_body]
fn parse_decimal_u32(s: &str) -> (r: Option<u32>)
    ensures
        r == decimal_u32(s@),
{
    u32::from_str_radix(s, 10).ok()
}

/// Reads a run's settings: the output location, the accession and the
/// assembly are the first three arguments after the program's name; the
/// bucket size, if given, is the fifth; the chromosome filter, if given, the
/// sixth.
pub fn read_args<'a>(args: &'a Vec<String>, env_args: &'a HashMap<String, String>) -> (r: Result<
    Options<'a>,
    ArgsError,
>)
    ensures
        args@.len() < 4 <==> r == Err::<Options<'a>, _>(ArgsError::MissingArgument),
        args@.len() >= 4 && !env_has(env_args@, DATABASE_URL_KEY@) <==> r == Err::<Options<'a>, _>(
            ArgsError::MissingDatabaseUrl,
        ),
        r == Err::<Options<'a>, _>(ArgsError::InvalidBucketSize) <==> args@.len() >= 6 && env_has(
            env_args@,
            DATABASE_URL_KEY@,
        ) && (decimal_u32(args@[5]@) is None || decimal_u32(args@[5]@) == Some(0u32)),
        r matches Ok(o) ==> {
            &&& o.output_location == &args@[1]
            &&& o.experiment_accession_id == &args@[2]
            &&& o.assembly_name == &args@[3]
            &&& env_maps(env_args@, DATABASE_URL_KEY@, *o.connection_string)
            &&& o.bucket_size == if args@.len() >= 6 {
                decimal_u32(args@[5]@)->0
            } else {
                DEFAULT_BUCKET_SIZE
            }
            &&& o.bucket_size > 0
            &&& o.chromo == if args@.len() >= 7 {
                Some(&args@[6])
            } else {
                None
            }
        },
{
    if args.len() < 4 {
        return Err(ArgsError::MissingArgument);
    }
    let connection_string = match lookup(env_args, DATABASE_URL_KEY) {
        Some(url) => url,
        None => return Err(ArgsError::MissingDatabaseUrl),
    };
    let bucket_size = if args.len() >= 6 {
        match parse_decimal_u32(args[5].as_str()) {
            Some(size) => size,
            None => return Err(ArgsError::InvalidBucketSize),
        }
    } else {
        DEFAULT_BUCKET_SIZE
    };
    if bucket_size == 0 {
        return Err(ArgsError::InvalidBucketSize);
    }
    let chromo = if args.len() >= 7 {
        Some(&args[6])
    } else {
        None
    };
    Ok(
        Options {
            output_location: &args[1],
            experiment_accession_id: &args[2],
            assembly_name: &args[3],
            connection_string,
            bucket_size,
            chromo,
        },
    )
}

} // verus!
