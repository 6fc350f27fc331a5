//! JSON text (RFC 8259), as a recognizer over characters.

use vstd::prelude::*;
use crate::text::chars_of;

verus! {

/// JSON's white space: space, tab, line feed, carriage return.
pub open spec fn is_json_ws(c: char) -> bool {
    c == ' ' || c == '\t' || c == '\n' || c == '\r'
}

/// A decimal digit.
pub open spec fn is_digit(c: char) -> bool {
    '0' <= c <= '9'
}

/// A hexadecimal digit of either case.
pub open spec fn is_hex_digit(c: char) -> bool {
    is_digit(c) || ('a' <= c <= 'f') || ('A' <= c <= 'F')
}

/// The end of the run of white space that starts at `i`.
pub open spec fn ws_end(s: Seq<char>, i: int) -> int
    decreases s.len() - i,
{
    if 0 <= i < s.len() && is_json_ws(s[i]) {
        ws_end(s, i + 1)
    } else {
        i
    }
}

/// The end of the run of decimal digits that starts at `i`.
pub open spec fn digits_end(s: Seq<char>, i: int) -> int
    decreases s.len() - i,
{
    if 0 <= i < s.len() && is_digit(s[i]) {
        digits_end(s, i + 1)
    } else {
        i
    }
}

/// A white space run ends no earlier than it starts.
pub proof fn lemma_ws_end(s: Seq<char>, i: int)
    ensures
        ws_end(s, i) >= i,
        i <= s.len() ==> ws_end(s, i) <= s.len(),
    decreases s.len() - i,
{
    if 0 <= i < s.len() && is_json_ws(s[i]) {
        lemma_ws_end(s, i + 1);
    }
}

/// An escape character after a backslash: `"`, `\`, `/`, `b`, `f`, `n`, `r`, `t`.
pub open spec fn is_escape_char(c: char) -> bool {
    c == '"' || c == '\\' || c == '/' || c == 'b' || c == 'f' || c == 'n' || c == 'r' || c == 't'
}

/// The end, past the closing quote, of a string whose characters start at `i`
/// (just after the opening quote); `None` where they do not form one.
pub open spec fn string_rest_end(s: Seq<char>, i: int) -> Option<int>
    decreases s.len() - i,
{
    if i < 0 || i >= s.len() {
        None
    } else if s[i] == '"' {
        Some(i + 1)
    } else if s[i] == '\\' {
        if i + 1 < s.len() && is_escape_char(s[i + 1]) {
            string_rest_end(s, i + 2)
        } else if i + 5 < s.len() && s[i + 1] == 'u' && is_hex_digit(s[i + 2]) && is_hex_digit(
            s[i + 3],
        ) && is_hex_digit(s[i + 4]) && is_hex_digit(s[i + 5]) {
            string_rest_end(s, i + 6)
        } else {
            None
        }
    } else if (s[i] as u32) < 0x20 {
        None
    } else {
        string_rest_end(s, i + 1)
    }
}

/// A string ends past where its characters start.
pub proof fn lemma_string_rest_end(s: Seq<char>, i: int)
    ensures
        string_rest_end(s, i) matches Some(j) ==> j > i,
    decreases s.len() - i,
{
    if i < 0 || i >= s.len() {
    } else if s[i] == '"' {
    } else if s[i] == '\\' {
        if i + 1 < s.len() && is_escape_char(s[i + 1]) {
            lemma_string_rest_end(s, i + 2);
        } else if i + 5 < s.len() {
            lemma_string_rest_end(s, i + 6);
        }
    } else if (s[i] as u32) < 0x20 {
    } else {
        lemma_string_rest_end(s, i + 1);
    }
}

/// The end of a number that starts at `i`: an optional minus, an integer part
/// with no leading zero, an optional fraction and an optional exponent.
pub open spec fn number_end(s: Seq<char>, i: int) -> Option<int> {
    let a = if 0 <= i < s.len() && s[i] == '-' {
        i + 1
    } else {
        i
    };
    if !(0 <= a < s.len() && is_digit(s[a])) {
        None
    } else {
        let b = if s[a] == '0' {
            a + 1
        } else {
            digits_end(s, a)
        };
        let c = if b < s.len() && s[b] == '.' {
            if b + 1 < s.len() && is_digit(s[b + 1]) {
                digits_end(s, b + 1)
            } else {
                -1
            }
        } else {
            b
        };
        if c < 0 {
            None
        } else if c < s.len() && (s[c] == 'e' || s[c] == 'E') {
            let d = if c + 1 < s.len() && (s[c + 1] == '+' || s[c + 1] == '-') {
                c + 2
            } else {
                c + 1
            };
            if d < s.len() && is_digit(s[d]) {
                Some(digits_end(s, d))
            } else {
                None
            }
        } else {
            Some(c)
        }
    }
}

/// The word `w` stands in `s` at `i`.
pub open spec fn word_at(s: Seq<char>, i: int, w: Seq<char>) -> bool {
    0 <= i && i + w.len() <= s.len() && s.subrange(i, i + w.len()) == w
}

/// The end of the value that starts at `i`; `None` where no value starts there.
pub open spec fn value_end(s: Seq<char>, i: int) -> Option<int>
    decreases s.len() - i, 0nat,
{
    if i < 0 || i >= s.len() {
        None
    } else if s[i] == '{' {
        proof {
            lemma_ws_end(s, i + 1);
        }
        let j = ws_end(s, i + 1);
        if j < s.len() && s[j] == '}' {
            Some(j + 1)
        } else {
            members_end(s, j)
        }
    } else if s[i] == '[' {
        proof {
            lemma_ws_end(s, i + 1);
        }
        let j = ws_end(s, i + 1);
        if j < s.len() && s[j] == ']' {
            Some(j + 1)
        } else {
            elements_end(s, j)
        }
    } else if s[i] == '"' {
        string_rest_end(s, i + 1)
    } else if word_at(s, i, seq!['t', 'r', 'u', 'e']) {
        Some(i + 4)
    } else if word_at(s, i, seq!['f', 'a', 'l', 's', 'e']) {
        Some(i + 5)
    } else if word_at(s, i, seq!['n', 'u', 'l', 'l']) {
        Some(i + 4)
    } else {
        number_end(s, i)
    }
}

/// The end, past the closing bracket, of the elements of an array that start
/// at `i`: values parted by commas, with white space around them.
pub open spec fn elements_end(s: Seq<char>, i: int) -> Option<int>
    decreases s.len() - i, 1nat,
{
    match value_end(s, i) {
        None => None,
        Some(j) => {
            proof {
                lemma_ws_end(s, j);
            }
            let k = ws_end(s, j);
            if k < s.len() && s[k] == ']' {
                Some(k + 1)
            } else if i < j && k < s.len() && s[k] == ',' {
                proof {
                    lemma_ws_end(s, k + 1);
                }
                elements_end(s, ws_end(s, k + 1))
            } else {
                None
            }
        },
    }
}

/// The end, past the closing brace, of the members of an object that start
/// at `i`: string keys, each with a colon and a value, parted by commas, with
/// white space around them.
pub open spec fn members_end(s: Seq<char>, i: int) -> Option<int>
    decreases s.len() - i, 1nat,
{
    if i < 0 || i >= s.len() || s[i] != '"' {
        None
    } else {
        proof {
            lemma_string_rest_end(s, i + 1);
        }
        match string_rest_end(s, i + 1) {
            None => None,
            Some(j) => {
                proof {
                    lemma_ws_end(s, j);
                }
                let k = ws_end(s, j);
                if !(k < s.len() && s[k] == ':') {
                    None
                } else {
                    proof {
                        lemma_ws_end(s, k + 1);
                    }
                    let v = ws_end(s, k + 1);
                    match value_end(s, v) {
                        None => None,
                        Some(e) => {
                            proof {
                                lemma_ws_end(s, e);
                            }
                            let m = ws_end(s, e);
                            if m < s.len() && s[m] == '}' {
                                Some(m + 1)
                            } else if i < m && m < s.len() && s[m] == ',' {
                                proof {
                                    lemma_ws_end(s, m + 1);
                                }
                                members_end(s, ws_end(s, m + 1))
                            } else {
                                None
                            }
                        },
                    }
                }
            },
        }
    }
}

/// `s` is a JSON text: one value with white space around it.
pub open spec fn is_json_text(s: Seq<char>) -> bool {
    match value_end(s, ws_end(s, 0)) {
        Some(j) => ws_end(s, j) == s.len(),
        None => false,
    }
}

/// Where the white space that starts at `i` ends.
fn ws_end_of(cs: &Vec<char>, i: usize) -> (r: usize)
    requires
        i <= cs@.len(),
    ensures
        r as int == ws_end(cs@, i as int),
        i <= r <= cs@.len(),
{
    let mut k = i;
    while k < cs.len() && (cs[k] == ' ' || cs[k] == '\t' || cs[k] == '\n' || cs[k] == '\r')
        invariant
            i <= k <= cs@.len(),
            ws_end(cs@, i as int) == ws_end(cs@, k as int),
        decreases cs@.len() - k,
    {
        k = k + 1;
    }
    k
}

/// Whether `c` is a decimal digit.
fn char_is_digit(c: char) -> (r: bool)
    ensures
        r == is_digit(c),
{
    '0' <= c && c <= '9'
}

/// Whether `c` is a hexadecimal digit.
fn char_is_hex_digit(c: char) -> (r: bool)
    ensures
        r == is_hex_digit(c),
{
    char_is_digit(c) || ('a' <= c && c <= 'f') || ('A' <= c && c <= 'F')
}

/// Where the digits that start at `i` end.
fn digits_end_of(cs: &Vec<char>, i: usize) -> (r: usize)
    requires
        i <= cs@.len(),
    ensures
        r as int == digits_end(cs@, i as int),
        i <= r <= cs@.len(),
        i < cs@.len() && is_digit(cs@[i as int]) ==> i < r,
{
    let mut k = i;
    while k < cs.len() && char_is_digit(cs[k])
        invariant
            i <= k <= cs@.len(),
            digits_end(cs@, i as int) == digits_end(cs@, k as int),
        decreases cs@.len() - k,
    {
        k = k + 1;
    }
    k
}

/// Where the string whose characters start at `i` ends.
fn string_rest_end_of(cs: &Vec<char>, i: usize) -> (r: Option<usize>)
    requires
        i <= cs@.len(),
    ensures
        match string_rest_end(cs@, i as int) {
            Some(j) => r == Some(j as usize) && j <= cs@.len(),
            None => r is None,
        },
{
    let n = cs.len();
    let mut k = i;
    loop
        invariant
            n == cs@.len(),
            i <= k <= n + 1,
            string_rest_end(cs@, i as int) == string_rest_end(cs@, k as int),
        decreases n + 1 - k,
    {
        if k >= n {
            return None;
        }
        let c = cs[k];
        if c == '"' {
            return Some(k + 1);
        } else if c == '\\' {
            if k + 1 < n && (cs[k + 1] == '"' || cs[k + 1] == '\\' || cs[k + 1] == '/' || cs[k + 1]
                == 'b' || cs[k + 1] == 'f' || cs[k + 1] == 'n' || cs[k + 1] == 'r' || cs[k + 1]
                == 't') {
                k = k + 2;
            } else if n - k > 5 && cs[k + 1] == 'u' && char_is_hex_digit(cs[k + 2])
                && char_is_hex_digit(cs[k + 3]) && char_is_hex_digit(cs[k + 4])
                && char_is_hex_digit(cs[k + 5]) {
                k = k + 6;
            } else {
                return None;
            }
        } else if (c as u32) < 0x20 {
            return None;
        } else {
            k = k + 1;
        }
    }
}

/// Where the number that starts at `i` ends.
fn number_end_of(cs: &Vec<char>, i: usize) -> (r: Option<usize>)
    requires
        i <= cs@.len(),
    ensures
        match number_end(cs@, i as int) {
            Some(j) => r == Some(j as usize) && i < j <= cs@.len(),
            None => r is None,
        },
{
    let n = cs.len();
    let a = if i < n && cs[i] == '-' {
        i + 1
    } else {
        i
    };
    if !(a < n && char_is_digit(cs[a])) {
        return None;
    }
    let b = if cs[a] == '0' {
        a + 1
    } else {
        digits_end_of(cs, a)
    };
    let c = if b < n && cs[b] == '.' {
        if b + 1 < n && char_is_digit(cs[b + 1]) {
            digits_end_of(cs, b + 1)
        } else {
            return None;
        }
    } else {
        b
    };
    if c < n && (cs[c] == 'e' || cs[c] == 'E') {
        let d = if c + 1 < n && (cs[c + 1] == '+' || cs[c + 1] == '-') {
            c + 2
        } else {
            c + 1
        };
        if d < n && char_is_digit(cs[d]) {
            Some(digits_end_of(cs, d))
        } else {
            None
        }
    } else {
        Some(c)
    }
}

/// Whether the word `w` stands in `cs` at `i`.
fn word_at_of(cs: &Vec<char>, i: usize, w: &[char]) -> (r: bool)
    requires
        i <= cs@.len(),
    ensures
        r == word_at(cs@, i as int, w@),
{
    if w.len() > cs.len() - i {
        return false;
    }
    let mut k: usize = 0;
    while k < w.len()
        invariant
            i + w@.len() <= cs@.len(),
            i + w.len() <= cs.len(),
            k <= w@.len(),
            forall|m: int| 0 <= m < k ==> cs@[i + m] == w@[m],
        decreases w@.len() - k,
    {
        if cs[i + k] != w[k] {
            assert(cs@.subrange(i as int, i + w@.len())[k as int] != w@[k as int]);
            return false;
        }
        k = k + 1;
    }
    assert(cs@.subrange(i as int, i + w@.len()) =~= w@);
    true
}

/// Where the value that starts at `i` ends.
fn value_end_of(cs: &Vec<char>, i: usize) -> (r: Option<usize>)
    requires
        i <= cs@.len(),
    ensures
        match value_end(cs@, i as int) {
            Some(j) => r == Some(j as usize) && i < j <= cs@.len(),
            None => r is None,
        },
    decreases cs@.len() - i, 0nat,
{
    let n = cs.len();
    if i >= n {
        return None;
    }
    let c = cs[i];
    if c == '{' {
        let j = ws_end_of(cs, i + 1);
        if j < n && cs[j] == '}' {
            Some(j + 1)
        } else {
            members_end_of(cs, j)
        }
    } else if c == '[' {
        let j = ws_end_of(cs, i + 1);
        if j < n && cs[j] == ']' {
            Some(j + 1)
        } else {
            elements_end_of(cs, j)
        }
    } else if c == '"' {
        proof {
            lemma_string_rest_end(cs@, i + 1);
        }
        string_rest_end_of(cs, i + 1)
    } else if word_at_of(cs, i, &['t', 'r', 'u', 'e']) {
        Some(i + 4)
    } else if word_at_of(cs, i, &['f', 'a', 'l', 's', 'e']) {
        Some(i + 5)
    } else if word_at_of(cs, i, &['n', 'u', 'l', 'l']) {
        Some(i + 4)
    } else {
        number_end_of(cs, i)
    }
}

/// Where the elements of an array that start at `i` end.
fn elements_end_of(cs: &Vec<char>, i: usize) -> (r: Option<usize>)
    requires
        i <= cs@.len(),
    ensures
        match elements_end(cs@, i as int) {
            Some(j) => r == Some(j as usize) && i < j <= cs@.len(),
            None => r is None,
        },
    decreases cs@.len() - i, 1nat,
{
    let n = cs.len();
    match value_end_of(cs, i) {
        None => None,
        Some(j) => {
            let k = ws_end_of(cs, j);
            if k < n && cs[k] == ']' {
                Some(k + 1)
            } else if i < j && k < n && cs[k] == ',' {
                let next = ws_end_of(cs, k + 1);
                elements_end_of(cs, next)
            } else {
                None
            }
        },
    }
}

/// Where the members of an object that start at `i` end.
fn members_end_of(cs: &Vec<char>, i: usize) -> (r: Option<usize>)
    requires
        i <= cs@.len(),
    ensures
        match members_end(cs@, i as int) {
            Some(j) => r == Some(j as usize) && i < j <= cs@.len(),
            None => r is None,
        },
    decreases cs@.len() - i, 1nat,
{
    let n = cs.len();
    if i >= n || cs[i] != '"' {
        return None;
    }
    proof {
        lemma_string_rest_end(cs@, i + 1);
    }
    match string_rest_end_of(cs, i + 1) {
        None => None,
        Some(j) => {
            let k = ws_end_of(cs, j);
            if !(k < n && cs[k] == ':') {
                return None;
            }
            let v = ws_end_of(cs, k + 1);
            match value_end_of(cs, v) {
                None => None,
                Some(e) => {
                    let m = ws_end_of(cs, e);
                    if m < n && cs[m] == '}' {
                        Some(m + 1)
                    } else if i < m && m < n && cs[m] == ',' {
                        let next = ws_end_of(cs, m + 1);
                        members_end_of(cs, next)
                    } else {
                        None
                    }
                },
            }
        },
    }
}

/// Whether `data` is a JSON text.
pub fn is_json(data: &str) -> (r: bool)
    ensures
        r == is_json_text(data@),
{
    let cs = chars_of(data);
    let start = ws_end_of(&cs, 0);
    match value_end_of(&cs, start) {
        Some(j) => ws_end_of(&cs, j) == cs.len(),
        None => false,
    }
}

} // verus!
