//! Building the shell command for one attempt: every occurrence of the
//! placeholder token in the template is replaced by the input file's path
//! (literal substring substitution, no quoting), and the result is prefixed
//! with a wall-clock time limit for the external `timeout` utility.

use vstd::prelude::*;
use vstd::string::*;

verus! {

/// The token in a command template that stands for the input file's path.
pub open spec fn placeholder() -> Seq<char> {
    "@bench_file"@
}

/// The placeholder token as an executable string.
pub fn file_placeholder() -> (s: &'static str)
    ensures
        s@ == placeholder(),
{
    "@bench_file"
}

/// Leftmost, non-overlapping replacement of every occurrence of `pat` in
/// `s` by `rep`; the identity when `pat` is empty.
pub open spec fn replace_all(s: Seq<char>, pat: Seq<char>, rep: Seq<char>) -> Seq<char>
    decreases s.len(),
{
    if pat.len() == 0 || s.len() < pat.len() {
        s
    } else if s.take(pat.len() as int) == pat {
        rep + replace_all(s.skip(pat.len() as int), pat, rep)
    } else {
        seq![s[0]] + replace_all(s.skip(1), pat, rep)
    }
}

/// Whether `pat` occurs in `s` starting at position `i`.
fn matches_at(s: &str, n: usize, i: usize, pat: &str, pl: usize) -> (m: bool)
    requires
        n == s@.len(),
        pl == pat@.len(),
        i <= n,
    ensures
        m == (i + pat@.len() <= s@.len() && s@.subrange(i as int, i + pat@.len() as int)
            == pat@),
{
    if n - i < pl {
        return false;
    }
    let mut k: usize = 0;
    let mut mismatch = false;
    while !mismatch && k < pl
        invariant
            k <= pl,
            n == s@.len(),
            pl == pat@.len(),
            i + pl <= n,
            !mismatch ==> forall|m: int| 0 <= m < k ==> s@[i + m] == pat@[m],
            mismatch ==> k < pl && s@[i + k] != pat@[k as int],
        decreases (if mismatch { 0int } else { 1int }), pl - k,
    {
        if s.get_char(i + k) != pat.get_char(k) {
            mismatch = true;
        } else {
            k = k + 1;
        }
    }
    if mismatch {
        proof {
            assert(s@.subrange(i as int, i + pl as int)[k as int] != pat@[k as int]);
        }
        false
    } else {
        proof {
            assert(s@.subrange(i as int, i + pl as int) =~= pat@);
        }
        true
    }
}

/// Replaces every occurrence of `pat` in `s` by `rep`, leftmost first and
/// without overlap, exactly as `replace_all` describes.
pub fn replace_in_str(s: &str, pat: &str, rep: &str) -> (r: String)
    requires
        pat@.len() >= 1,
    ensures
        r@ == replace_all(s@, pat@, rep@),
{
    let n = s.unicode_len();
    let pl = pat.unicode_len();
    let mut out = String::new();
    let mut i: usize = 0;
    proof {
        assert(s@.skip(0) =~= s@);
        assert(out@ + replace_all(s@, pat@, rep@) =~= replace_all(s@, pat@, rep@));
    }
    while i < n
        invariant
            i <= n,
            n == s@.len(),
            pl == pat@.len(),
            pl >= 1,
            out@ + replace_all(s@.skip(i as int), pat@, rep@) == replace_all(s@, pat@, rep@),
        decreases n - i,
    {
        let ghost tail = s@.skip(i as int);
        let ghost prev = out@;
        if matches_at(s, n, i, pat, pl) {
            proof {
                assert(tail.take(pl as int) =~= s@.subrange(i as int, i + pl as int));
                assert(tail.skip(pl as int) =~= s@.skip(i + pl as int));
                assert(replace_all(tail, pat@, rep@) == rep@ + replace_all(
                    s@.skip(i + pl as int),
                    pat@,
                    rep@,
                ));
            }
            out.append(rep);
            i = i + pl;
            proof {
                assert(out@ + replace_all(s@.skip(i as int), pat@, rep@) =~= prev + replace_all(
                    tail,
                    pat@,
                    rep@,
                ));
            }
        } else {
            proof {
                assert(tail =~= seq![s@[i as int]] + s@.skip(i as int + 1));
                if tail.len() >= pl {
                    assert(tail.take(pl as int) =~= s@.subrange(i as int, i + pl as int));
                    assert(replace_all(tail, pat@, rep@) == seq![tail[0]] + replace_all(
                        tail.skip(1),
                        pat@,
                        rep@,
                    ));
                } else {
                    assert(replace_all(tail, pat@, rep@) == tail);
                    assert(s@.skip(i as int + 1).len() < pl);
                    assert(replace_all(s@.skip(i as int + 1), pat@, rep@) == s@.skip(
                        i as int + 1,
                    ));
                }
                assert(tail.skip(1) =~= s@.skip(i as int + 1));
            }
            let piece = s.substring_char(i, i + 1);
            proof {
                assert(piece@ =~= seq![s@[i as int]]);
            }
            out.append(piece);
            i = i + 1;
            proof {
                assert(out@ + replace_all(s@.skip(i as int), pat@, rep@) =~= prev + replace_all(
                    tail,
                    pat@,
                    rep@,
                ));
            }
        }
    }
    proof {
        assert(s@.skip(n as int) =~= Seq::<char>::empty());
        assert(out@ + replace_all(s@.skip(n as int), pat@, rep@) =~= out@);
    }
    out
}

/// The character for one decimal digit.
pub open spec fn digit_char(d: nat) -> char {
    if d == 0 {
        '0'
    } else if d == 1 {
        '1'
    } else if d == 2 {
        '2'
    } else if d == 3 {
        '3'
    } else if d == 4 {
        '4'
    } else if d == 5 {
        '5'
    } else if d == 6 {
        '6'
    } else if d == 7 {
        '7'
    } else if d == 8 {
        '8'
    } else {
        '9'
    }
}

/// The decimal notation of `n`, most significant digit first, without
/// leading zeros (a single `'0'` for zero itself).
pub open spec fn dec_str(n: nat) -> Seq<char>
    decreases n,
{
    if n < 10 {
        seq![digit_char(n)]
    } else {
        dec_str(n / 10).push(digit_char(n % 10))
    }
}

/// One decimal digit as a string.
fn digit_str(d: u64) -> (s: &'static str)
    requires
        d < 10,
    ensures
        s@ == seq![digit_char(d as nat)],
{
    if d == 0 {
        proof {
            reveal_strlit("0");
            assert("0"@ =~= seq![digit_char(0)]);
        }
        "0"
    } else if d == 1 {
        proof {
            reveal_strlit("1");
            assert("1"@ =~= seq![digit_char(1)]);
        }
        "1"
    } else if d == 2 {
        proof {
            reveal_strlit("2");
            assert("2"@ =~= seq![digit_char(2)]);
        }
        "2"
    } else if d == 3 {
        proof {
            reveal_strlit("3");
            assert("3"@ =~= seq![digit_char(3)]);
        }
        "3"
    } else if d == 4 {
        proof {
            reveal_strlit("4");
            assert("4"@ =~= seq![digit_char(4)]);
        }
        "4"
    } else if d == 5 {
        proof {
            reveal_strlit("5");
            assert("5"@ =~= seq![digit_char(5)]);
        }
        "5"
    } else if d == 6 {
        proof {
            reveal_strlit("6");
            assert("6"@ =~= seq![digit_char(6)]);
        }
        "6"
    } else if d == 7 {
        proof {
            reveal_strlit("7");
            assert("7"@ =~= seq![digit_char(7)]);
        }
        "7"
    } else if d == 8 {
        proof {
            reveal_strlit("8");
            assert("8"@ =~= seq![digit_char(8)]);
        }
        "8"
    } else {
        proof {
            reveal_strlit("9");
            assert("9"@ =~= seq![digit_char(9)]);
        }
        "9"
    }
}

/// Writes `n` in decimal notation.
pub fn format_u64(n: u64) -> (s: String)
    ensures
        s@ == dec_str(n as nat),
    decreases n,
{
    if n < 10 {
        String::from_str(digit_str(n))
    } else {
        let mut s = format_u64(n / 10);
        s.append(digit_str(n % 10));
        proof {
            assert(s@ =~= dec_str((n / 10) as nat).push(digit_char((n % 10) as nat)));
        }
        s
    }
}

/// The full shell command for one attempt: the time-limiting prefix
/// `timeout <seconds>s `, then the template with the input file's path
/// substituted for every placeholder token.
pub open spec fn timed_command(timeout_seconds: u64, template: Seq<char>, file: Seq<char>) -> Seq<
    char,
> {
    "timeout "@ + dec_str(timeout_seconds as nat) + "s "@ + replace_all(
        template,
        placeholder(),
        file,
    )
}

/// Builds the shell command for one attempt of `file` under
/// `timeout_seconds`.
pub fn build_command(timeout_seconds: u64, file: &str, template: &str) -> (cmd: String)
    requires
        timeout_seconds >= 1,
    ensures
        cmd@ == timed_command(timeout_seconds, template@, file@),
{
    let mut cmd = String::from_str("timeout ");
    let num = format_u64(timeout_seconds);
    cmd.append(num.as_str());
    cmd.append("s ");
    let interpolated = interpolate(template, file);
    cmd.append(interpolated.as_str());
    proof {
        assert(cmd@ =~= timed_command(timeout_seconds, template@, file@));
    }
    cmd
}

/// Substitutes the input file's path for every occurrence of the
/// placeholder token in the command template.
pub fn interpolate(template: &str, file: &str) -> (cmd: String)
    ensures
        cmd@ == replace_all(template@, placeholder(), file@),
{
    proof {
        reveal_strlit("@bench_file");
    }
    replace_in_str(template, file_placeholder(), file)
}

} // verus!
