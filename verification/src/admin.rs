//! Administration: the teacher's password policy, and hashing passwords.
//!
//! There is neither sign-up nor self-service reset: the teacher's password is
//! fixed, and API keys are minted by an administration command.
use argon2::{Argon2, PasswordHasher};
use vstd::prelude::*;

use crate::auth::{argon2_accepts, phc_readable};
use crate::text::{concat_spec, nat_digits, same_text, text_of, u64_to_text};

verus! {

/// Minimal length of a teacher password, in characters.
///
/// The policy applies **only** to the human password. `hash_password` also
/// hashes participants' secrets, shorter by design: the rule there would make
/// them all invalid.
pub const MIN_PASSWORD_CHARS: usize = 12;

/// Minimal number of distinct characters of a teacher password.
pub const MIN_DISTINCT_CHARS: usize = 5;

/// The refusal of a password of `length` characters, too short.
pub open spec fn too_short_message(length: nat) -> Seq<char> {
    concat_spec(
        seq![
            "mot de passe trop court : "@,
            nat_digits(MIN_PASSWORD_CHARS as nat),
            " caractères minimum, "@,
            nat_digits(length),
            " saisis. Une phrase de passe de quelques mots convient très bien."@,
        ],
    )
}

/// The refusal of a password of too few distinct characters.
pub open spec fn repetitive_message() -> Seq<char> {
    "mot de passe trop répétitif : moins de cinq caractères différents"@
}

/// What the policy answers for a password: too short first, then too
/// repetitive. Length and distinctness count characters, not bytes.
pub open spec fn policy_spec(password: Seq<char>) -> Result<(), Seq<char>> {
    if password.len() < MIN_PASSWORD_CHARS {
        Err(too_short_message(password.len()))
    } else if password.to_set().len() < MIN_DISTINCT_CHARS {
        Err(repetitive_message())
    } else {
        Ok(())
    }
}

fn holds_char(seen: &Vec<char>, c: char) -> (r: bool)
    ensures
        r == seen@.contains(c),
{
    let mut i: usize = 0;
    while i < seen.len()
        invariant
            i <= seen@.len(),
            forall|k: int| 0 <= k < i ==> seen@[k] != c,
        decreases seen@.len() - i,
    {
        if seen[i] == c {
            return true;
        }
        i = i + 1;
    }
    false
}

/// Number of distinct characters of a text.
fn distinct_chars(s: &str) -> (r: usize)
    ensures
        r == s@.to_set().len(),
{
    let n = s.unicode_len();
    let mut seen: Vec<char> = Vec::new();
    let mut i: usize = 0;
    proof {
        assert(s@.take(0).to_set() =~= seen@.to_set());
    }
    while i < n
        invariant
            i <= n,
            n == s@.len(),
            seen@.no_duplicates(),
            seen@.to_set() == s@.take(i as int).to_set(),
        decreases n - i,
    {
        let c = s.get_char(i);
        proof {
            assert(s@.take(i + 1) =~= s@.take(i as int) + seq![c]);
            Seq::<char>::lemma_to_set_insert_commutes(s@.take(i as int), c);
        }
        if !holds_char(&seen, c) {
            let ghost before = seen@;
            seen.push(c);
            proof {
                assert(seen@ =~= before + seq![c]);
                Seq::<char>::lemma_to_set_insert_commutes(before, c);
            }
        } else {
            proof {
                assert(s@.take(i as int).to_set().insert(c) =~= s@.take(i as int).to_set());
            }
        }
        i = i + 1;
    }
    proof {
        assert(s@.take(n as int) == s@);
        seen@.unique_seq_to_set();
    }
    seen.len()
}

/// Refuses passwords too weak for an account exposed on the Internet.
///
/// Counts characters and not bytes, else « é » would count twice. The number
/// of distinct characters rules out `aaaaaaaaaaaa` and twelve spaces, which
/// meet the length and protect nothing.
pub fn check_password_policy(password: &str) -> (r: Result<(), String>)
    ensures
        match policy_spec(password@) {
            Ok(()) => r is Ok,
            Err(m) => r matches Err(e) && e@ == m,
        },
{
    let length = password.unicode_len();
    if length < MIN_PASSWORD_CHARS {
        let least = u64_to_text(MIN_PASSWORD_CHARS as u64);
        let given = u64_to_text(length as u64);
        let parts = [
            "mot de passe trop court : ",
            least.as_str(),
            " caractères minimum, ",
            given.as_str(),
            " saisis. Une phrase de passe de quelques mots convient très bien.",
        ];
        let m = text_of(&parts);
        proof {
            assert(parts@.map_values(|p: &str| p@) =~= seq![
                "mot de passe trop court : "@,
                nat_digits(MIN_PASSWORD_CHARS as nat),
                " caractères minimum, "@,
                nat_digits(length as nat),
                " saisis. Une phrase de passe de quelques mots convient très bien."@,
            ]);
        }
        return Err(m);
    }
    if distinct_chars(password) < MIN_DISTINCT_CHARS {
        return Err(String::from_str("mot de passe trop répétitif : moins de cinq caractères différents"));
    }
    Ok(())
}

/// `Argon2::default().hash_password(password)`, with a salt drawn from the
/// operating system's generator, written as a PHC string.
///
/// Claimed, of every outcome: a hash produced is a readable PHC string that
/// the same password verifies against. Which salt, hence which string, is
/// left unsaid: it depends on chance. A failure carries the crate's message.
#[verifier::external_body]
fn argon2_hash(password: &str) -> (r: Result<String, String>)
    ensures
        r matches Ok(h) ==> phc_readable(h@) && argon2_accepts(password@, h@),
{
    Argon2::default().hash_password(password.as_bytes()).map(|h| h.to_string()).map_err(|e| e.to_string())
}

/// Argon2id hash of a password, as a PHC string, with a fresh salt. It
/// imposes no policy: participants' secrets go through it too.
pub fn hash_password(password: &str) -> (r: Result<String, String>)
    ensures
        r matches Ok(h) ==> phc_readable(h@) && argon2_accepts(password@, h@),
        r matches Err(m) ==> exists|detail: Seq<char>| m@ == "hachage impossible : "@ + detail,
{
    match argon2_hash(password) {
        Ok(h) => Ok(h),
        Err(detail) => {
            let m = text_of(&["hachage impossible : ", detail.as_str()]);
            proof {
                reveal_with_fuel(concat_spec, 3);
            }
            Err(m)
        },
    }
}

// ---------------------------------------------------------------------------
// Commands
// ---------------------------------------------------------------------------

/// How the administration commands are called.
pub const USAGE: &'static str = "Usage :\n  qcmweb-api                          démarre l'API\n  qcmweb-api hash-password            empreinte un mot de passe (saisie interactive)\n  qcmweb-api mint-key <libellé>       crée une clé d'API de scope `agent`\n";

/// An administration command.
#[derive(Debug, PartialEq, Eq)]
pub enum Command {
    /// Hash a new teacher password, read without echo.
    HashPassword,
    /// Mint an API key of scope `agent`, with this label.
    MintKey(String),
}

pub open spec fn unknown_command(name: Seq<char>) -> Seq<char> {
    concat_spec(seq!["sous-commande inconnue : "@, name, "\n\n"@, USAGE@])
}

/// Reads the command of the arguments given after the program's name.
pub fn parse_command(args: &[String]) -> (r: Result<Command, String>)
    requires
        args@.len() >= 1,
    ensures
        ({
            let a = args@.map_values(|s: String| s@);
            if a[0] == "hash-password"@ {
                r == Ok::<Command, String>(Command::HashPassword)
            } else if a[0] == "mint-key"@ {
                if a.len() >= 2 {
                    r matches Ok(Command::MintKey(label)) && label@ == a[1]
                } else {
                    r matches Err(e) && e@ == "libellé manquant : mint-key <libellé>"@
                }
            } else {
                r matches Err(e) && e@ == unknown_command(a[0])
            }
        }),
{
    let first = args[0].as_str();
    proof {
        reveal_strlit("hash-password");
        reveal_strlit("mint-key");
    }
    if same_text(first, "hash-password") {
        return Ok(Command::HashPassword);
    }
    if same_text(first, "mint-key") {
        if args.len() >= 2 {
            return Ok(Command::MintKey(args[1].clone()));
        }
        return Err(String::from_str("libellé manquant : mint-key <libellé>"));
    }
    let parts = ["sous-commande inconnue : ", first, "\n\n", USAGE];
    let m = text_of(&parts);
    proof {
        assert(parts@.map_values(|p: &str| p@) =~= seq!["sous-commande inconnue : "@, first@, "\n\n"@, USAGE@]);
    }
    Err(m)
}

/// A password typed twice at a terminal: both entries must agree, a typing
/// slip on a password one cannot see would lock its owner out.
pub fn confirm_password(first: String, second: &str) -> (r: Result<String, String>)
    ensures
        first@ == second@ ==> (r matches Ok(p) && p@ == first@),
        first@ != second@ ==> (r matches Err(m) && m@ == "les deux saisies diffèrent"@),
{
    if same_text(first.as_str(), second) {
        Ok(first)
    } else {
        Err(String::from_str("les deux saisies diffèrent"))
    }
}

/// A line read from a pipe, without its trailing line breaks
/// (`trim_end_matches(['\n', '\r'])`).
pub open spec fn strip_line_end_spec(s: Seq<char>) -> Seq<char>
    decreases s.len(),
{
    if s.len() > 0 && (s.last() == '\n' || s.last() == '\r') {
        strip_line_end_spec(s.drop_last())
    } else {
        s
    }
}

pub fn strip_line_end(line: &str) -> (r: &str)
    ensures
        r@ == strip_line_end_spec(line@),
{
    let mut end = line.unicode_len();
    proof {
        assert(line@.take(end as int) == line@);
    }
    while end > 0 && (line.get_char(end - 1) == '\n' || line.get_char(end - 1) == '\r')
        invariant
            end <= line@.len(),
            strip_line_end_spec(line@) == strip_line_end_spec(line@.take(end as int)),
        decreases end,
    {
        proof {
            assert(line@.take(end as int).drop_last() == line@.take(end - 1));
        }
        end = end - 1;
    }
    let r = line.substring_char(0, end);
    proof {
        assert(r@ == line@.take(end as int));
    }
    r
}

/// Argon2 checks allowed at once: as many as the machine's cores, at most
/// four (each takes some twenty megabytes), two when the count is unknown.
pub fn hashing_permits(available: Option<usize>) -> (r: usize)
    ensures
        r == (match available {
            Some(n) => if n < 1 { 1 } else if n > 4 { 4 } else { n },
            None => 2,
        }),
{
    match available {
        Some(n) => if n < 1 {
            1
        } else if n > 4 {
            4
        } else {
            n
        },
        None => 2,
    }
}

} // verus!
