use vstd::prelude::*;
use vstd::string::{StrSliceExecFns, StringExecFns};

use crate::diagnostics::debug_str;

verus! {

/// The name of the node template.
pub const NODE_TEMPLATE: &'static str = "node.html";

/// The name of the transclusion template.
pub const TRANSCLUSION_TEMPLATE: &'static str = "transclusion.html";

/// The name of the link template.
pub const LINK_TEMPLATE: &'static str = "link.html";

/// The paths of the templates, relative to the project root unless absolute.
pub struct TemplatesConfig {
    pub node: String,
    pub transclusion: String,
    pub link: String,
}

impl TemplatesConfig {
    /// The templates under their default names.
    pub fn default_paths() -> (c: Self)
        ensures
            c.node@ == NODE_TEMPLATE@,
            c.transclusion@ == TRANSCLUSION_TEMPLATE@,
            c.link@ == LINK_TEMPLATE@,
    {
        TemplatesConfig {
            node: String::from_str(NODE_TEMPLATE),
            transclusion: String::from_str(TRANSCLUSION_TEMPLATE),
            link: String::from_str(LINK_TEMPLATE),
        }
    }
}

/// The `[site]` table of the configuration file.
pub struct SiteConfig {
    pub root_directory: Option<String>,
    pub trailing_slash: Option<bool>,
    pub index_node: Option<String>,
    pub domain: Option<String>,
}

/// `c` has the Unicode `White_Space` property, which `char::is_whitespace`
/// and `str::trim` go by.
pub open spec fn is_white_space(c: char) -> bool {
    let u = c as u32;
    ||| 0x9 <= u <= 0xD
    ||| u == 0x20
    ||| u == 0x85
    ||| u == 0xA0
    ||| u == 0x1680
    ||| 0x2000 <= u <= 0x200A
    ||| u == 0x2028
    ||| u == 0x2029
    ||| u == 0x202F
    ||| u == 0x205F
    ||| u == 0x3000
}

/// `s` without its leading white space.
pub open spec fn trim_start(s: Seq<char>) -> Seq<char>
    decreases s.len(),
{
    if s.len() > 0 && is_white_space(s[0]) {
        trim_start(s.drop_first())
    } else {
        s
    }
}

/// `s` without its trailing white space.
pub open spec fn trim_end(s: Seq<char>) -> Seq<char>
    decreases s.len(),
{
    if s.len() > 0 && is_white_space(s.last()) {
        trim_end(s.drop_last())
    } else {
        s
    }
}

/// `s` without leading and trailing white space, as `str::trim` returns it.
pub open spec fn trimmed(s: Seq<char>) -> Seq<char> {
    trim_end(trim_start(s))
}

/// Whether `c` has the Unicode `White_Space` property.
fn white_space(c: char) -> (r: bool)
    ensures
        r == is_white_space(c),
{
    let u = c as u32;
    (0x9 <= u && u <= 0xD) || u == 0x20 || u == 0x85 || u == 0xA0 || u == 0x1680 || (0x2000 <= u
        && u <= 0x200A) || u == 0x2028 || u == 0x2029 || u == 0x202F || u == 0x205F || u == 0x3000
}

/// Dropping a prefix of white space does not change the trimmed start.
proof fn lemma_trim_start_skip(s: Seq<char>, i: int)
    requires
        0 <= i <= s.len(),
        forall|k: int| 0 <= k < i ==> is_white_space(#[trigger] s[k]),
    ensures
        trim_start(s) == trim_start(s.subrange(i, s.len() as int)),
    decreases i,
{
    if i > 0 {
        assert(s.drop_first().subrange(i - 1, s.drop_first().len() as int) =~= s.subrange(i, s.len() as int));
        assert forall|k: int| 0 <= k < i - 1 implies is_white_space(#[trigger] s.drop_first()[k]) by {
            assert(s.drop_first()[k] == s[k + 1]);
        }
        lemma_trim_start_skip(s.drop_first(), i - 1);
    } else {
        assert(s.subrange(0, s.len() as int) =~= s);
    }
}

/// Dropping a suffix of white space does not change the trimmed end.
proof fn lemma_trim_end_skip(s: Seq<char>, j: int)
    requires
        0 <= j <= s.len(),
        forall|k: int| j <= k < s.len() ==> is_white_space(#[trigger] s[k]),
    ensures
        trim_end(s) == trim_end(s.subrange(0, j)),
    decreases s.len() - j,
{
    if j < s.len() {
        assert(s.drop_last().subrange(0, j) =~= s.subrange(0, j));
        assert forall|k: int| j <= k < s.drop_last().len() implies is_white_space(#[trigger] s.drop_last()[k]) by {
            assert(s.drop_last()[k] == s[k]);
        }
        assert(is_white_space(s[s.len() - 1]));
        lemma_trim_end_skip(s.drop_last(), j);
    } else {
        assert(s.subrange(0, j) =~= s);
    }
}

/// `s` without leading and trailing white space.
pub fn trim(s: &str) -> (r: &str)
    ensures
        r@ == trimmed(s@),
{
    let n = s.unicode_len();
    let mut i: usize = 0;
    while i < n && white_space(s.get_char(i))
        invariant
            n == s@.len(),
            i <= n,
            forall|k: int| 0 <= k < i ==> is_white_space(#[trigger] s@[k]),
        decreases n - i,
    {
        i = i + 1;
    }
    let mut j: usize = n;
    while j > i && white_space(s.get_char(j - 1))
        invariant
            n == s@.len(),
            i <= j <= n,
            forall|k: int| j <= k < n ==> is_white_space(#[trigger] s@[k]),
        decreases j - i,
    {
        j = j - 1;
    }
    proof {
        lemma_trim_start_skip(s@, i as int);
        let rest = s@.subrange(i as int, n as int);
        assert(trim_start(rest) == rest) by {
            if rest.len() > 0 {
                assert(rest[0] == s@[i as int]);
            }
        }
        assert forall|k: int| j - i <= k < rest.len() implies is_white_space(#[trigger] rest[k]) by {
            assert(rest[k] == s@[i + k]);
        }
        lemma_trim_end_skip(rest, j - i);
        let kept = rest.subrange(0, j - i);
        assert(kept =~= s@.subrange(i as int, j as int));
        assert(trim_end(kept) == kept) by {
            if kept.len() > 0 {
                assert(kept.last() == s@[j - 1]);
            }
        }
    }
    s.substring_char(i, j)
}

/// The root directory of the site as a path that starts and ends with
/// `/`: the configured value without surrounding white space, or `/` when
/// absent or blank.
pub open spec fn normalized_root(raw: Option<Seq<char>>) -> Seq<char> {
    let t = match raw {
        Some(r) => trimmed(r),
        None => Seq::empty(),
    };
    let base = if t.len() == 0 {
        seq!['/']
    } else {
        t
    };
    let front = if base[0] == '/' {
        base
    } else {
        seq!['/'] + base
    };
    if front.last() == '/' {
        front
    } else {
        front.push('/')
    }
}

/// Normalizes the configured root directory of the site so that it starts
/// and ends with `/`; absent or blank means `/`.
pub fn normalize_root_directory(raw: Option<&str>) -> (root: String)
    ensures
        root@ == normalized_root(
            match raw {
                Some(r) => Some(r@),
                None => None,
            },
        ),
{
    proof {
        reveal_strlit("/");
    }
    let t: &str = match raw {
        Some(r) => trim(r),
        None => "",
    };
    proof {
        reveal_strlit("");
    }
    let base: String = if t.unicode_len() == 0 {
        String::from_str("/")
    } else {
        String::from_str(t)
    };
    let first = base.as_str().get_char(0);
    let front: String = if first == '/' {
        base
    } else {
        String::from_str("/").concat(base.as_str())
    };
    let last = front.as_str().get_char(front.as_str().unicode_len() - 1);
    proof {
        assert(front@.last() == last);
    }
    if last == '/' {
        front
    } else {
        front.concat("/")
    }
}

/// The first position of `c` in `s`, if any.
pub open spec fn first_index_of(s: Seq<char>, c: char) -> Option<int> {
    if exists|i: int| 0 <= i < s.len() && s[i] == c {
        Some(choose|i: int| 0 <= i < s.len() && s[i] == c && forall|k: int| 0 <= k < i ==> s[k] != c)
    } else {
        None
    }
}

/// Splits `s` at its first `c`, as `str::split_once` does.
pub fn split_once(s: &str, c: char) -> (r: Option<(&str, &str)>)
    ensures
        match r {
            Some((a, b)) => exists|i: int|
                0 <= i < s@.len() && s@[i] == c && (forall|k: int| 0 <= k < i ==> s@[k] != c) && a@
                    == s@.subrange(0, i) && b@ == s@.subrange(i + 1, s@.len() as int),
            None => forall|k: int| 0 <= k < s@.len() ==> s@[k] != c,
        },
{
    let n = s.unicode_len();
    let mut i: usize = 0;
    while i < n
        invariant
            n == s@.len(),
            i <= n,
            forall|k: int| 0 <= k < i ==> s@[k] != c,
        decreases n - i,
    {
        if s.get_char(i) == c {
            return Some((s.substring_char(0, i), s.substring_char(i + 1, n)));
        }
        i = i + 1;
    }
    None
}

/// The message for an input pair without `=`.
pub open spec fn missing_equals_message() -> Seq<char> {
    "input must be a key and a value separated by an equal sign"@
}

/// The message for an input pair with a blank key.
pub open spec fn empty_key_message() -> Seq<char> {
    "the key was missing or empty"@
}

/// Parses a `key=value` input for Typst's `sys.inputs`: the text before the
/// first `=` is the key and the rest the value, each without surrounding
/// white space. The key must not be blank.
pub fn parse_sys_input_pair(raw: &str) -> (r: Result<(String, String), String>)
    ensures
        (forall|k: int| 0 <= k < raw@.len() ==> raw@[k] != '=') ==> r == Err::<(String, String), String>(
            r->Err_0,
        ) && r->Err_0@ == missing_equals_message(),
        forall|i: int|
            0 <= i < raw@.len() && raw@[i] == '=' && (forall|k: int| 0 <= k < i ==> raw@[k] != '=') ==> {
                let key = trimmed(raw@.subrange(0, i));
                let value = trimmed(raw@.subrange(i + 1, raw@.len() as int));
                if key.len() == 0 {
                    r is Err && r->Err_0@ == empty_key_message()
                } else {
                    r is Ok && r->Ok_0.0@ == key && r->Ok_0.1@ == value
                }
            },
{
    match split_once(raw, '=') {
        None => Err(String::from_str("input must be a key and a value separated by an equal sign")),
        Some((key, value)) => {
            let key = trim(key);
            if key.unicode_len() == 0 {
                return Err(String::from_str("the key was missing or empty"));
            }
            let value = trim(value);
            Ok((String::from_str(key), String::from_str(value)))
        },
    }
}

/// The message for an input pair without `=` given on the command line.
pub open spec fn input_pair_message(raw: Seq<char>) -> Seq<char> {
    "--input value must be KEY=VALUE, got: "@ + debug_str(raw) + "\n"@
}

/// Parses a `KEY=VALUE` command-line input: the text before the first `=`
/// and the rest, each without surrounding white space; without `=`, an
/// error message that quotes the input.
pub fn parse_system_input_pair(s: &str) -> (r: Result<(String, String), String>)
    ensures
        (forall|k: int| 0 <= k < s@.len() ==> s@[k] != '=') ==> r is Err && r->Err_0@ == input_pair_message(s@),
        forall|i: int|
            0 <= i < s@.len() && s@[i] == '=' && (forall|k: int| 0 <= k < i ==> s@[k] != '=') ==> r is Ok
                && r->Ok_0.0@ == trimmed(s@.subrange(0, i)) && r->Ok_0.1@ == trimmed(
                s@.subrange(i + 1, s@.len() as int),
            ),
{
    match split_once(s, '=') {
        Some((k, v)) => Ok((String::from_str(trim(k)), String::from_str(trim(v)))),
        None => Err(String::from_str("--input value must be KEY=VALUE, got: ").concat(
            crate::diagnostics::debug_quoted(s).as_str(),
        ).concat("\n")),
    }
}

/// The address of a node's page under the root directory: `root/id/` with
/// trailing slashes, else `root/id.html`.
pub fn href(root_directory: &str, trailing_slash: bool, id: &str) -> (h: String)
    ensures
        h@ == if trailing_slash {
            root_directory@ + id@ + "/"@
        } else {
            root_directory@ + id@ + ".html"@
        },
{
    if trailing_slash {
        String::from_str(root_directory).concat(id).concat("/")
    } else {
        String::from_str(root_directory).concat(id).concat(".html")
    }
}

/// The file of a node's page, relative to the output directory:
/// `id/index.html` with trailing slashes (except for the index node), else
/// `id.html`.
pub fn output_file(trailing_slash: bool, index_node: &str, id: &str) -> (f: String)
    ensures
        f@ == if trailing_slash && id@ != index_node@ {
            id@ + "/index.html"@
        } else {
            id@ + ".html"@
        },
{
    let is_index = same_str(id, index_node);
    if trailing_slash && !is_index {
        String::from_str(id).concat("/index.html")
    } else {
        String::from_str(id).concat(".html")
    }
}

/// Whether `a` and `b` hold the same characters.
pub(crate) fn same_str(a: &str, b: &str) -> (r: bool)
    ensures
        r == (a@ == b@),
{
    let n = a.unicode_len();
    if n != b.unicode_len() {
        return false;
    }
    let mut i: usize = 0;
    while i < n
        invariant
            n == a@.len(),
            n == b@.len(),
            i <= n,
            forall|k: int| 0 <= k < i ==> a@[k] == b@[k],
        decreases n - i,
    {
        if a.get_char(i) != b.get_char(i) {
            return false;
        }
        i = i + 1;
    }
    proof {
        assert(a@ =~= b@);
    }
    true
}

/// The site settings after defaults: the normalized root directory,
/// trailing slashes off, `index` as index node, and an empty domain.
pub fn resolve_site(site: SiteConfig) -> (r: (String, bool, String, String))
    ensures
        r.0@ == normalized_root(
            match site.root_directory {
                Some(s) => Some(s@),
                None => None,
            },
        ),
        r.1 == match site.trailing_slash {
            Some(b) => b,
            None => false,
        },
        r.2@ == match site.index_node {
            Some(s) => s@,
            None => "index"@,
        },
        r.3@ == match site.domain {
            Some(s) => s@,
            None => Seq::<char>::empty(),
        },
{
    let root = match &site.root_directory {
        Some(s) => normalize_root_directory(Some(s.as_str())),
        None => normalize_root_directory(None),
    };
    let trailing = match site.trailing_slash {
        Some(b) => b,
        None => false,
    };
    let index = match site.index_node {
        Some(s) => s,
        None => String::from_str("index"),
    };
    let domain = match site.domain {
        Some(s) => s,
        None => String::new(),
    };
    (root, trailing, index, domain)
}

/// The keys of the entries are distinct.
pub open spec fn keys_unique(entries: Seq<(String, String)>) -> bool {
    forall|i: int, j: int| 0 <= i < j < entries.len() ==> (#[trigger] entries[i]).0@ != (#[trigger] entries[j]).0@
}

/// The map that entries with distinct keys describe.
pub open spec fn entries_map(entries: Seq<(String, String)>) -> Map<Seq<char>, Seq<char>> {
    Map::new(
        |k: Seq<char>| exists|i: int| 0 <= i < entries.len() && (#[trigger] entries[i]).0@ == k,
        |k: Seq<char>| entries[choose|i: int| 0 <= i < entries.len() && (#[trigger] entries[i]).0@ == k].1@,
    )
}

/// The map that setting the pairs in order gives: a later pair replaces an
/// earlier one with the same key.
pub open spec fn set_in_order(pairs: Seq<(Seq<char>, Seq<char>)>) -> Map<Seq<char>, Seq<char>>
    decreases pairs.len(),
{
    if pairs.len() == 0 {
        Map::empty()
    } else {
        set_in_order(pairs.drop_last()).insert(pairs.last().0, pairs.last().1)
    }
}

/// The abstract value of key-value pairs.
pub open spec fn pairs_view(pairs: Seq<(String, String)>) -> Seq<(Seq<char>, Seq<char>)> {
    pairs.map_values(|p: (String, String)| (p.0@, p.1@))
}

/// The inputs that the compiler sets itself, after those of the
/// configuration and the command line.
pub open spec fn compiler_inputs(domain: Seq<char>, root_directory: Seq<char>, trailing_slash: bool) -> Seq<(Seq<char>, Seq<char>)> {
    seq![
        ("wb-domain"@, domain),
        ("wb-root-directory"@, root_directory),
        ("wb-trailing-slash"@, if trailing_slash { "true"@ } else { "false"@ }),
        ("wb-target"@, "html"@),
    ]
}

/// Sets `key` to `value`: replaces the entry with that key, or adds one.
pub fn set_input(entries: &mut Vec<(String, String)>, key: String, value: String)
    requires
        keys_unique(old(entries)@),
    ensures
        keys_unique(final(entries)@),
        entries_map(final(entries)@) == entries_map(old(entries)@).insert(key@, value@),
{
    let ghost before = entries@;
    let mut i: usize = 0;
    while i < entries.len()
        invariant
            entries@ == before,
            old(entries)@ == before,
            keys_unique(before),
            0 <= i <= entries@.len(),
            forall|q: int| 0 <= q < i ==> (#[trigger] entries@[q]).0@ != key@,
        decreases entries@.len() - i,
    {
        if same_str(entries[i].0.as_str(), key.as_str()) {
            let ghost k = key@;
            let ghost v = value@;
            entries.set(i, (key, value));
            proof {
                let after = entries@;
                assert(after[i as int].0@ == k);
                assert(before[i as int].0@ == k);
                assert forall|a: int, b: int| 0 <= a < b < after.len() implies (#[trigger] after[a]).0@ != (#[trigger] after[b]).0@ by {
                    if a != i && b != i {
                        assert(after[a] == before[a] && after[b] == before[b]);
                        assert(before[a].0@ != before[b].0@);
                    } else if a == i {
                        assert(after[b] == before[b]);
                        assert(before[a].0@ != before[b].0@);
                    } else {
                        assert(after[a] == before[a]);
                        assert(before[a].0@ != before[b].0@);
                    }
                }
                assert(entries_map(after) =~= entries_map(before).insert(k, v)) by {
                    assert forall|x: Seq<char>| entries_map(after).contains_key(x) <==> entries_map(before).insert(k, v).contains_key(x) by {
                        if entries_map(before).contains_key(x) {
                            let w = choose|w: int| 0 <= w < before.len() && (#[trigger] before[w]).0@ == x;
                            if w == i {
                                assert(after[i as int].0@ == x);
                            } else {
                                assert(after[w] == before[w]);
                            }
                        }
                        if entries_map(after).contains_key(x) {
                            let w = choose|w: int| 0 <= w < after.len() && (#[trigger] after[w]).0@ == x;
                            if w != i {
                                assert(after[w] == before[w]);
                            }
                        }
                        assert(after[i as int].0@ == k);
                    }
                    assert forall|x: Seq<char>| #[trigger] entries_map(after).contains_key(x) implies entries_map(after)[x] == entries_map(before).insert(k, v)[x] by {
                        let w = choose|w: int| 0 <= w < after.len() && (#[trigger] after[w]).0@ == x;
                        if x == k {
                            assert(after[i as int].0@ == k);
                            assert(w == i);
                        } else {
                            assert(w != i);
                            assert(after[w] == before[w]);
                            let u = choose|u: int| 0 <= u < before.len() && (#[trigger] before[u]).0@ == x;
                            if u < w {
                                assert(before[u].0@ != before[w].0@);
                            } else if w < u {
                                assert(before[w].0@ != before[u].0@);
                            }
                            assert(u == w);
                        }
                    }
                }
            }
            return;
        }
        i = i + 1;
    }
    let ghost k = key@;
    let ghost v = value@;
    entries.push((key, value));
    proof {
        let after = entries@;
        assert(after[before.len() as int].0@ == k);
        assert forall|a: int, b: int| 0 <= a < b < after.len() implies (#[trigger] after[a]).0@ != (#[trigger] after[b]).0@ by {
            assert(after[a] == before[a]);
            if b < before.len() {
                assert(after[b] == before[b]);
            }
        }
        assert(entries_map(after) =~= entries_map(before).insert(k, v)) by {
            assert forall|x: Seq<char>| entries_map(after).contains_key(x) <==> entries_map(before).insert(k, v).contains_key(x) by {
                if entries_map(before).contains_key(x) {
                    let w = choose|w: int| 0 <= w < before.len() && (#[trigger] before[w]).0@ == x;
                    assert(after[w] == before[w]);
                }
                if entries_map(after).contains_key(x) {
                    let w = choose|w: int| 0 <= w < after.len() && (#[trigger] after[w]).0@ == x;
                    if w < before.len() {
                        assert(after[w] == before[w]);
                    }
                }
            }
            assert forall|x: Seq<char>| #[trigger] entries_map(after).contains_key(x) implies entries_map(after)[x] == entries_map(before).insert(k, v)[x] by {
                let w = choose|w: int| 0 <= w < after.len() && (#[trigger] after[w]).0@ == x;
                if x == k {
                    assert(w == before.len());
                } else {
                    assert(w < before.len());
                    assert(after[w] == before[w]);
                    let u = choose|u: int| 0 <= u < before.len() && (#[trigger] before[u]).0@ == x;
                    if u < w {
                        assert(before[u].0@ != before[w].0@);
                    } else if w < u {
                        assert(before[w].0@ != before[u].0@);
                    }
                    assert(u == w);
                }
            }
        }
    }
}

/// Setting the compiler's inputs after some pairs sets them in order.
proof fn lemma_four_more(so_far: Seq<(Seq<char>, Seq<char>)>, domain: Seq<char>, root: Seq<char>, trailing: bool)
    ensures
        set_in_order(so_far + compiler_inputs(domain, root, trailing)) == set_in_order(so_far).insert(
            "wb-domain"@,
            domain,
        ).insert("wb-root-directory"@, root).insert(
            "wb-trailing-slash"@,
            if trailing { "true"@ } else { "false"@ },
        ).insert("wb-target"@, "html"@),
{
    let extra = compiler_inputs(domain, root, trailing);
    let full = so_far + extra;
    let s1 = so_far + extra.take(1);
    let s2 = so_far + extra.take(2);
    let s3 = so_far + extra.take(3);
    assert(s1.drop_last() =~= so_far);
    assert(s2.drop_last() =~= s1);
    assert(s3.drop_last() =~= s2);
    assert(full.drop_last() =~= s3);
    assert(s1.last() == extra[0]);
    assert(s2.last() == extra[1]);
    assert(s3.last() == extra[2]);
    assert(full.last() == extra[3]);
    assert(set_in_order(s1) == set_in_order(so_far).insert(extra[0].0, extra[0].1));
    assert(set_in_order(s2) == set_in_order(s1).insert(extra[1].0, extra[1].1));
    assert(set_in_order(s3) == set_in_order(s2).insert(extra[2].0, extra[2].1));
    assert(set_in_order(full) == set_in_order(s3).insert(extra[3].0, extra[3].1));
}

/// The inputs passed to Typst: those of the configuration, then those of
/// the command line, then the ones the compiler sets (`wb-domain`,
/// `wb-root-directory`, `wb-trailing-slash`, `wb-target`), a later one
/// replacing an earlier one with the same key. Each key is listed once.
pub fn merge_inputs(
    config: Vec<(String, String)>,
    cli: Vec<(String, String)>,
    domain: &str,
    root_directory: &str,
    trailing_slash: bool,
) -> (r: Vec<(String, String)>)
    ensures
        keys_unique(r@),
        entries_map(r@) == set_in_order(
            pairs_view(config@) + pairs_view(cli@) + compiler_inputs(domain@, root_directory@, trailing_slash),
        ),
{
    let ghost cv = config@;
    let ghost lv = cli@;
    let mut pairs = config;
    let mut cli = cli;
    pairs.append(&mut cli);
    let ghost given = pairs@;
    let mut r: Vec<(String, String)> = Vec::new();
    let mut i: usize = 0;
    proof {
        assert(pairs_view(given).take(0) =~= Seq::<(Seq<char>, Seq<char>)>::empty());
        assert(entries_map(r@) =~= Map::<Seq<char>, Seq<char>>::empty());
    }
    while i < pairs.len()
        invariant
            pairs@ == given,
            0 <= i <= given.len(),
            keys_unique(r@),
            entries_map(r@) == set_in_order(pairs_view(given).take(i as int)),
        decreases given.len() - i,
    {
        let k = pairs[i].0.clone();
        let v = pairs[i].1.clone();
        proof {
            let pv = pairs_view(given);
            assert(pv[i as int] == (k@, v@));
            assert(pv.take(i + 1).drop_last() =~= pv.take(i as int));
            assert(pv.take(i + 1).last() == (k@, v@));
        }
        set_input(&mut r, k, v);
        i = i + 1;
    }
    let ghost so_far = pairs_view(given);
    proof {
        assert(so_far.take(given.len() as int) =~= so_far);
    }
    let trailing = if trailing_slash {
        String::from_str("true")
    } else {
        String::from_str("false")
    };
    set_input(&mut r, String::from_str("wb-domain"), String::from_str(domain));
    set_input(&mut r, String::from_str("wb-root-directory"), String::from_str(root_directory));
    set_input(&mut r, String::from_str("wb-trailing-slash"), trailing);
    set_input(&mut r, String::from_str("wb-target"), String::from_str("html"));
    proof {
        lemma_four_more(so_far, domain@, root_directory@, trailing_slash);
        assert(given =~= cv + lv);
        assert(pairs_view(cv + lv) =~= pairs_view(cv) + pairs_view(lv));
    }
    r
}

} // verus!
