//! Plain data shapes handed to downstream renderers, the XML escaping
//! they share, and the file-extension test used when walking directories.
//! The rendering itself (JSON, JUnit, and the other output formats) lives
//! with the callers that do the writing.
use vstd::prelude::*;
use crate::text;

verus! {

/// One diagnostic flattened for export.
#[derive(Debug)]
pub struct ExportIssue {
    pub line: usize,
    pub column: usize,
    pub severity: String,
    pub rule: String,
    pub message: String,
    pub snippet: String,
}

/// One file's report flattened for export.
#[derive(Debug)]
pub struct ExportReport {
    pub file: String,
    pub errors: usize,
    pub warnings: usize,
    pub passed: bool,
    pub issues: Vec<ExportIssue>,
}

/// A validation outcome flattened for export.
#[derive(Debug)]
pub struct ValidationExport {
    pub timestamp: String,
    pub file: String,
    pub valid: bool,
    pub errors: Vec<String>,
    pub warnings: Vec<String>,
}

/// The outcome of converting one document to another format.
#[derive(Debug)]
pub struct ConversionResult {
    pub input_file: String,
    pub output_file: String,
    pub success: bool,
    pub error: Option<String>,
    pub size_before: u64,
    pub size_after: u64,
}

// ---------- XML escaping ----------

pub open spec fn xml_escape_char(c: char) -> Seq<char> {
    if c == '&' {
        "&amp;"@
    } else if c == '<' {
        "&lt;"@
    } else if c == '>' {
        "&gt;"@
    } else if c == '"' {
        "&quot;"@
    } else if c == '\'' {
        "&apos;"@
    } else {
        seq![c]
    }
}

/// The XML escape of a text: every markup character becomes its entity,
/// character by character, in order.
pub open spec fn xml_escape(s: Seq<char>) -> Seq<char>
    decreases s.len(),
{
    if s.len() == 0 {
        Seq::empty()
    } else {
        xml_escape(s.drop_last()) + xml_escape_char(s.last())
    }
}

pub struct Exporter;

impl Exporter {
    /// Escapes the five XML markup characters as entities.
    pub fn escape_xml(text_in: &str) -> (r: String)
        ensures
            r@ == xml_escape(text_in@),
    {
        let chars = text::str_to_chars(text_in);
        let mut out: Vec<char> = Vec::new();
        let mut i: usize = 0;
        proof {
            assert(out@ =~= xml_escape(chars@.take(0)));
        }
        while i < chars.len()
            invariant
                0 <= i <= chars@.len(),
                chars@ == text_in@,
                out@ == xml_escape(chars@.take(i as int)),
            decreases chars@.len() - i,
        {
            proof {
                assert(chars@.take(i + 1).drop_last() =~= chars@.take(i as int));
                assert(chars@.take(i + 1).last() == chars@[i as int]);
            }
            let c = chars[i];
            if c == '&' {
                text::push_str_chars(&mut out, "&amp;");
            } else if c == '<' {
                text::push_str_chars(&mut out, "&lt;");
            } else if c == '>' {
                text::push_str_chars(&mut out, "&gt;");
            } else if c == '"' {
                text::push_str_chars(&mut out, "&quot;");
            } else if c == '\'' {
                text::push_str_chars(&mut out, "&apos;");
            } else {
                out.push(c);
                proof {
                    assert(out@ =~= xml_escape(chars@.take(i as int)) + seq![c]);
                }
            }
            proof {
                assert(out@ =~= xml_escape(chars@.take(i + 1)));
            }
            i += 1;
        }
        proof {
            assert(chars@.take(chars@.len() as int) =~= chars@);
        }
        text::chars_to_string(&out)
    }
}

// ---------- recognizing document files ----------

/// Index of the last occurrence of `c`, or `-1` when absent.
pub open spec fn last_index(s: Seq<char>, c: char) -> int
    decreases s.len(),
{
    if s.len() == 0 {
        -1
    } else if s.last() == c {
        s.len() - 1
    } else {
        last_index(s.drop_last(), c)
    }
}

pub proof fn lemma_last_index(s: Seq<char>, c: char)
    ensures
        -1 <= last_index(s, c) < s.len(),
        last_index(s, c) >= 0 ==> s[last_index(s, c)] == c,
        forall|j: int| last_index(s, c) < j < s.len() ==> s[j] != c,
    decreases s.len(),
{
    if s.len() > 0 && s.last() != c {
        lemma_last_index(s.drop_last(), c);
        assert forall|j: int| last_index(s, c) < j < s.len() implies s[j] != c by {
            if j < s.len() - 1 {
                assert(s.drop_last()[j] == s[j]);
            }
        }
        if last_index(s, c) >= 0 {
            assert(s.drop_last()[last_index(s, c)] == s[last_index(s, c)]);
        }
    }
}

/// The extension of a path: the text after the last dot of the final
/// path component, provided that dot is not the component's first
/// character (a leading dot names a hidden file, not an extension).
pub open spec fn path_extension(s: Seq<char>) -> Option<Seq<char>> {
    let base = s.skip(last_index(s, '/') + 1);
    let d = last_index(base, '.');
    if d <= 0 {
        Option::None
    } else {
        Option::Some(base.skip(d + 1))
    }
}

/// A path names a document file when its extension, lower-cased, is
/// `yaml` or `yml`.
pub open spec fn is_yaml_path(s: Seq<char>) -> bool {
    match path_extension(s) {
        Option::Some(ext) => text::lower_seq(ext) == "yaml"@ || text::lower_seq(ext) == "yml"@,
        Option::None => false,
    }
}

fn rscan_last(v: &Vec<char>, from: usize, to: usize, c: char) -> (r: Option<usize>)
    requires
        from <= to <= v@.len(),
    ensures
        r matches Some(j) ==> from <= j < to && v@[j as int] == c && (forall|q: int|
            j < q < to ==> v@[q] != c),
        r is None ==> forall|q: int| from <= q < to ==> v@[q] != c,
{
    let mut j: usize = to;
    while j > from
        invariant
            from <= j <= to <= v@.len(),
            forall|q: int| j <= q < to ==> v@[q] != c,
        decreases j,
    {
        if v[j - 1] == c {
            return Some(j - 1);
        }
        j -= 1;
    }
    None
}

/// The structs of a converter run keep their plain outcome fields; the
/// conversion itself is a rendering concern of the caller.
pub struct YamlConverter;

impl YamlConverter {
    /// Whether a path names a document this tool handles, by extension.
    pub fn is_yaml_file(path: &str) -> (r: bool)
        ensures
            r == is_yaml_path(path@),
    {
        let v = text::str_to_chars(path);
        let n = v.len();
        proof {
            lemma_last_index(v@, '/');
        }
        let sl = rscan_last(&v, 0, n, '/');
        let bstart: usize = match sl {
            Some(j) => j + 1,
            None => 0,
        };
        proof {
            let li = last_index(v@, '/');
            assert(li + 1 == bstart) by {
                match sl {
                    Some(j) => {
                        if li > j {
                            assert(v@[li] == '/');
                        }
                        if li < j {
                            assert(v@[j as int] == '/');
                        }
                    },
                    None => {
                        if li >= 0 {
                            assert(v@[li] == '/');
                        }
                    },
                }
            }
            lemma_last_index(v@.skip(bstart as int), '.');
        }
        let ghost base = v@.skip(bstart as int);
        let dot = rscan_last(&v, bstart, n, '.');
        let ghost d = last_index(base, '.');
        proof {
            match dot {
                Some(j) => {
                    assert(base[j - bstart] == v@[j as int]);
                    assert(d == j - bstart) by {
                        if d > j - bstart {
                            assert(base[d] == '.');
                            assert(v@[bstart + d] == '.');
                        }
                        if d < j - bstart {
                            assert(base[j - bstart] != '.');
                        }
                    }
                },
                None => {
                    assert(d == -1) by {
                        if d >= 0 {
                            assert(base[d] == '.');
                            assert(v@[bstart + d] == '.');
                        }
                    }
                },
            }
        }
        match dot {
            Some(j) => {
                if j == bstart {
                    assert(d == 0);
                    return false;
                }
                let ext = text::sub_chars(&v, j + 1, n);
                proof {
                    assert(ext@ =~= base.skip(d + 1));
                }
                let mut low: Vec<char> = Vec::new();
                let mut k: usize = 0;
                while k < ext.len()
                    invariant
                        0 <= k <= ext@.len(),
                        low@ == text::lower_seq(ext@.take(k as int)),
                    decreases ext@.len() - k,
                {
                    low.push(text::ascii_lower(ext[k]));
                    proof {
                        assert(low@ =~= text::lower_seq(ext@.take(k + 1)));
                    }
                    k += 1;
                }
                proof {
                    assert(ext@.take(ext@.len() as int) =~= ext@);
                }
                text::chars_eq_str(&low, "yaml") || text::chars_eq_str(&low, "yml")
            },
            None => {
                false
            },
        }
    }
}

} // verus!
