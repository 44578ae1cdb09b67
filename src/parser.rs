use vstd::prelude::*;
use crate::naming::strings_view;

verus! {

/// What `char::is_alphanumeric` says of a character.
pub uninterp spec fn alphanumeric(c: char) -> bool;

/// Relies on char::is_alphanumeric: whether the character is alphabetic or numeric.
#[verifier::external_body]
fn char_is_alphanumeric(c: char) -> (r: bool)
    ensures
        r == alphanumeric(c),
{
    c.is_alphanumeric()
}

pub open spec fn name_char(c: char) -> bool {
    alphanumeric(c) || c == '_'
}

/// Whether `c` may stand in a segment of a module name.
pub fn is_name_char(c: char) -> (r: bool)
    ensures
        r == name_char(c),
{
    char_is_alphanumeric(c) || c == '_'
}

pub open spec fn is_space(c: char) -> bool {
    c == ' ' || c == '\t' || c == '\r' || c == '\n'
}

/// `s` holds `a` then `b` at `i`.
pub open spec fn pair_at(s: Seq<char>, i: nat, a: char, b: char) -> bool {
    i + 1 < s.len() && s[i as int] == a && s[i + 1int] == b
}

/// The position just after the first `-/` at or after `i`, if there is one.
pub open spec fn block_end(s: Seq<char>, i: nat) -> Option<nat>
    decreases s.len() - i,
{
    if i + 1 >= s.len() {
        None
    } else if s[i as int] == '-' && s[i + 1int] == '/' {
        Some(i + 2)
    } else {
        block_end(s, i + 1)
    }
}

/// The position just after the first line break at or after `i`, if there is one.
pub open spec fn line_end(s: Seq<char>, i: nat) -> Option<nat>
    decreases s.len() - i,
{
    if i >= s.len() {
        None
    } else if s[i as int] == '\r' || s[i as int] == '\n' {
        Some(i + 1)
    } else {
        line_end(s, i + 1)
    }
}

/// The position after the whitespace, `/- ... -/` block comments and `-- ...` line comments
/// that start at `i`; `None` where a comment is not closed.
pub open spec fn skip_trivia(s: Seq<char>, i: nat) -> Option<nat>
    decreases s.len() - i,
{
    if i >= s.len() {
        Some(i)
    } else if is_space(s[i as int]) {
        skip_trivia(s, i + 1)
    } else if pair_at(s, i, '/', '-') {
        match block_end(s, i + 2) {
            Some(e) => if i < e <= s.len() {
                skip_trivia(s, e)
            } else {
                None
            },
            None => None,
        }
    } else if pair_at(s, i, '-', '-') {
        match line_end(s, i + 2) {
            Some(e) => if i < e <= s.len() {
                skip_trivia(s, e)
            } else {
                None
            },
            None => None,
        }
    } else {
        Some(i)
    }
}

/// The end of the run of name characters that starts at `i`.
pub open spec fn name_end(s: Seq<char>, i: nat) -> nat
    decreases s.len() - i,
{
    if i < s.len() && name_char(s[i as int]) {
        name_end(s, i + 1)
    } else {
        i
    }
}

/// The segments of the dotted word that starts at `i`, and where it ends. A `.` belongs to the
/// word only where a segment follows it.
pub open spec fn word_at(s: Seq<char>, i: nat) -> (Seq<Seq<char>>, nat)
    decreases s.len() - i,
{
    let e = name_end(s, i);
    if i <= e < s.len() && s[e as int] == '.' && name_end(s, e + 1) > e + 1 {
        let (rest, end) = word_at(s, e + 1);
        (seq![s.subrange(i as int, e as int)] + rest, end)
    } else {
        (seq![s.subrange(i as int, e as int)], e)
    }
}

/// The words that end the header of a file.
pub open spec fn keywords() -> Seq<Seq<char>> {
    seq![
        "abbreviation"@, "add_key_equivalence"@, "attribute"@, "axiom"@, "axioms"@, "class"@,
        "coinductive"@, "constant"@, "constants"@, "definition"@, "def"@, "declare_trace"@,
        "example"@, "export"@, "hide"@, "include"@, "inductive"@, "infix"@, "infixl"@, "infixr"@,
        "init_quotient"@, "instance"@, "local"@, "lemma"@, "meta"@, "mutual"@, "namespace"@,
        "noncomputable"@, "notation"@, "parameter"@, "parameters"@, "precedence"@, "prefix"@,
        "private"@, "protected"@, "postfix"@, "reserve"@, "run_cmd"@, "omit"@, "open"@,
        "section"@, "set_option"@, "structure"@, "theorem"@, "universe"@, "universes"@,
        "variable"@, "variables"@,
    ]
}

/// The header read from `i` on, given the prelude flag and the imports read before `i`: word
/// by word, `prelude` sets the flag, `import` is skipped, a keyword ends the header, and any
/// other word is an imported name. The header also ends where no word follows.
pub open spec fn header_from(
    s: Seq<char>,
    i: nat,
    prelude: bool,
    acc: Seq<Seq<Seq<char>>>,
) -> (bool, Seq<Seq<Seq<char>>>)
    decreases s.len() - i,
{
    match skip_trivia(s, i) {
        None => (prelude, acc),
        Some(p) => {
            let (w, e) = word_at(s, p);
            if name_end(s, p) <= p || e <= i || e > s.len() {
                (prelude, acc)
            } else if w.len() == 1 && w[0] == "prelude"@ {
                header_from(s, e, true, acc)
            } else if w.len() == 1 && w[0] == "import"@ {
                header_from(s, e, prelude, acc)
            } else if w.len() == 1 && keywords().contains(w[0]) {
                (prelude, acc)
            } else {
                header_from(s, e, prelude, acc.push(w))
            }
        },
    }
}

/// The prelude flag and the imported names, each as its segments, of a source text.
pub open spec fn header_spec(s: Seq<char>) -> (bool, Seq<Seq<Seq<char>>>) {
    header_from(s, 0, false, seq![])
}

pub open spec fn opt_nat(o: Option<usize>) -> Option<nat> {
    match o {
        Some(v) => Some(v as nat),
        None => None,
    }
}

fn find_block_end(s: &str, len: usize, i: usize) -> (r: Option<usize>)
    requires
        len == s@.len(),
    ensures
        opt_nat(r) == block_end(s@, i as nat),
        r matches Some(e) ==> i + 2 <= e <= len,
{
    let mut j: usize = i;
    while j < len && j + 1 < len
        invariant
            len == s@.len(),
            i <= j,
            block_end(s@, i as nat) == block_end(s@, j as nat),
            forall|k: nat| i <= k < j ==> !pair_at(s@, k, '-', '/'),
        decreases len - j,
    {
        if s.get_char(j) == '-' && s.get_char(j + 1) == '/' {
            return Some(j + 2);
        }
        j = j + 1;
    }
    None
}

fn find_line_end(s: &str, len: usize, i: usize) -> (r: Option<usize>)
    requires
        len == s@.len(),
    ensures
        opt_nat(r) == line_end(s@, i as nat),
        r matches Some(e) ==> i < e <= len,
{
    let mut j: usize = i;
    while j < len
        invariant
            len == s@.len(),
            i <= j,
            line_end(s@, i as nat) == line_end(s@, j as nat),
        decreases len - j,
    {
        let c = s.get_char(j);
        if c == '\r' || c == '\n' {
            return Some(j + 1);
        }
        j = j + 1;
    }
    None
}

fn skip_trivia_at(s: &str, len: usize, i: usize) -> (r: Option<usize>)
    requires
        len == s@.len(),
        i <= len,
    ensures
        opt_nat(r) == skip_trivia(s@, i as nat),
        r matches Some(p) ==> i <= p <= len,
{
    let mut j: usize = i;
    loop
        invariant
            len == s@.len(),
            i <= j <= len,
            skip_trivia(s@, i as nat) == skip_trivia(s@, j as nat),
        decreases len - j,
    {
        if j >= len {
            return Some(j);
        }
        let c = s.get_char(j);
        if c == ' ' || c == '\t' || c == '\r' || c == '\n' {
            j = j + 1;
        } else if j + 1 < len && c == '/' && s.get_char(j + 1) == '-' {
            match find_block_end(s, len, j + 2) {
                Some(e) => {
                    j = e;
                },
                None => {
                    return None;
                },
            }
        } else if j + 1 < len && c == '-' && s.get_char(j + 1) == '-' {
            match find_line_end(s, len, j + 2) {
                Some(e) => {
                    j = e;
                },
                None => {
                    return None;
                },
            }
        } else {
            return Some(j);
        }
    }
}

fn find_name_end(s: &str, len: usize, i: usize) -> (r: usize)
    requires
        len == s@.len(),
        i <= len,
    ensures
        r == name_end(s@, i as nat),
        i <= r <= len,
{
    let mut j: usize = i;
    while j < len && is_name_char(s.get_char(j))
        invariant
            len == s@.len(),
            i <= j <= len,
            name_end(s@, i as nat) == name_end(s@, j as nat),
        decreases len - j,
    {
        j = j + 1;
    }
    j
}

/// Reads the dotted word that starts at `i`.
fn read_word(s: &str, len: usize, i: usize) -> (r: (Vec<String>, usize))
    requires
        len == s@.len(),
        i <= len,
    ensures
        (strings_view(r.0@), r.1 as nat) == word_at(s@, i as nat),
        i <= r.1 <= len,
{
    let mut segs: Vec<String> = Vec::new();
    let mut j: usize = i;
    loop
        invariant
            len == s@.len(),
            i <= j <= len,
            word_at(s@, i as nat) == (strings_view(segs@) + word_at(s@, j as nat).0, word_at(s@, j as nat).1),
        decreases len - j,
    {
        let e = find_name_end(s, len, j);
        let seg = String::from_str(s.substring_char(j, e));
        let ghost before = segs@;
        segs.push(seg);
        assert(strings_view(segs@) =~= strings_view(before).push(s@.subrange(j as int, e as int)));
        if e < len && s.get_char(e) == '.' && find_name_end(s, len, e + 1) > e + 1 {
            proof {
                let (rest, end) = word_at(s@, (e + 1) as nat);
                assert(word_at(s@, j as nat) == (seq![s@.subrange(j as int, e as int)] + rest, end));
                assert(strings_view(before) + word_at(s@, j as nat).0 =~= strings_view(segs@) + rest);
            }
            j = e + 1;
        } else {
            proof {
                assert(word_at(s@, j as nat) == (seq![s@.subrange(j as int, e as int)], e as nat));
                assert(strings_view(before) + word_at(s@, j as nat).0 =~= strings_view(segs@));
            }
            return (segs, e);
        }
    }
}

fn keyword_list() -> (r: Vec<&'static str>)
    ensures
        r@.map_values(|k: &str| k@) == keywords(),
{
    let r = vec![
        "abbreviation", "add_key_equivalence", "attribute", "axiom", "axioms", "class",
        "coinductive", "constant", "constants", "definition", "def", "declare_trace",
        "example", "export", "hide", "include", "inductive", "infix", "infixl", "infixr",
        "init_quotient", "instance", "local", "lemma", "meta", "mutual", "namespace",
        "noncomputable", "notation", "parameter", "parameters", "precedence", "prefix",
        "private", "protected", "postfix", "reserve", "run_cmd", "omit", "open",
        "section", "set_option", "structure", "theorem", "universe", "universes",
        "variable", "variables",
    ];
    assert(r@.map_values(|k: &str| k@) =~= keywords());
    r
}

/// Whether `w` is one of the words that end the header.
pub fn is_keyword(w: &String) -> (r: bool)
    ensures
        r == keywords().contains(w@),
{
    let kws = keyword_list();
    let ghost kv = kws@.map_values(|k: &str| k@);
    let mut k: usize = 0;
    while k < kws.len()
        invariant
            kv == kws@.map_values(|k: &str| k@),
            kv == keywords(),
            k <= kws@.len(),
            forall|j: int| 0 <= j < k ==> kv[j] != w@,
        decreases kws@.len() - k,
    {
        assert(kv[k as int] == kws@[k as int]@);
        if String::from_str(kws[k]) == *w {
            assert(keywords()[k as int] == w@);
            return true;
        }
        k = k + 1;
    }
    false
}

pub open spec fn names_view(v: Seq<Vec<String>>) -> Seq<Seq<Seq<char>>> {
    v.map_values(|n: Vec<String>| strings_view(n@))
}

/// Reads the header of a source text: whether it is marked `prelude`, and the names it
/// imports, each split at its dots, in textual order.
pub fn parse_header(contents: &str) -> (r: (bool, Vec<Vec<String>>))
    ensures
        (r.0, names_view(r.1@)) == header_spec(contents@),
{
    let s = contents;
    let len = s.unicode_len();
    let mut prelude = false;
    let mut modules: Vec<Vec<String>> = Vec::new();
    let mut i: usize = 0;
    proof {
        assert(names_view(modules@) =~= Seq::<Seq<Seq<char>>>::empty());
    }
    let prelude_word = String::from_str("prelude");
    let import_word = String::from_str("import");
    loop
        invariant
            s@ == contents@,
            len == s@.len(),
            i <= len,
            prelude_word@ == "prelude"@,
            import_word@ == "import"@,
            header_spec(s@) == header_from(s@, i as nat, prelude, names_view(modules@)),
        decreases len - i,
    {
        let p = match skip_trivia_at(s, len, i) {
            Some(p) => p,
            None => {
                assert(skip_trivia(s@, i as nat) is None);
                assert(header_from(s@, i as nat, prelude, names_view(modules@)) == (prelude, names_view(modules@)));
                return (prelude, modules);
            },
        };
        assert(skip_trivia(s@, i as nat) == Some(p as nat));
        let (w, e) = read_word(s, len, p);
        if find_name_end(s, len, p) <= p || e <= i {
            assert(header_from(s@, i as nat, prelude, names_view(modules@)) == (prelude, names_view(modules@)));
            return (prelude, modules);
        }
        let ghost wv = strings_view(w@);
        assert(w@.len() == 1 ==> wv[0] == w@[0]@);
        if w.len() == 1 && w[0] == prelude_word {
            prelude = true;
        } else if w.len() == 1 && w[0] == import_word {
        } else if w.len() == 1 && is_keyword(&w[0]) {
            return (prelude, modules);
        } else {
            let ghost before = modules@;
            modules.push(w);
            assert(names_view(modules@) =~= names_view(before).push(wv));
        }
        i = e;
    }
}

} // verus!
