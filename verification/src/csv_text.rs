use vstd::prelude::*;

verus! {

// ---------------------------------------------------------------------------
// Splitting one CSV record into fields: comma-delimited, quote-aware,
// doubled quotes escaping a literal quote inside a quoted field.
// ---------------------------------------------------------------------------

/// The record ends at `i`: end of input or a record terminator.
pub open spec fn at_record_end(s: Seq<char>, i: int) -> bool {
    i >= s.len() || s[i] == '\n' || s[i] == '\r'
}

/// The content of a quoted field whose opening quote stands just before
/// `i`, and the position after its closing quote. A doubled quote stands
/// for one literal quote; a field without a closing quote is malformed.
pub open spec fn quoted_tail(s: Seq<char>, i: int) -> Option<(Seq<char>, int)>
    decreases s.len() - i,
{
    if i >= s.len() {
        None
    } else if s[i] == '"' {
        if i + 1 < s.len() && s[i + 1] == '"' {
            match quoted_tail(s, i + 2) {
                Option::None => None,
                Option::Some((c, j)) => Some((seq!['"'] + c, j)),
            }
        } else {
            Some((Seq::<char>::empty(), i + 1))
        }
    } else {
        match quoted_tail(s, i + 1) {
            Option::None => None,
            Option::Some((c, j)) => Some((seq![s[i]] + c, j)),
        }
    }
}

/// The content of an unquoted field starting at `i`, up to a comma, a
/// record terminator or the end; a quote inside it is malformed.
pub open spec fn unquoted_field(s: Seq<char>, i: int) -> Option<(Seq<char>, int)>
    decreases s.len() - i,
{
    if i >= s.len() || s[i] == ',' || s[i] == '\n' || s[i] == '\r' {
        Some((Seq::<char>::empty(), i))
    } else if s[i] == '"' {
        None
    } else {
        match unquoted_field(s, i + 1) {
            Option::None => None,
            Option::Some((c, j)) => Some((seq![s[i]] + c, j)),
        }
    }
}

/// One field starting at `i`: quoted when it opens with a quote, else
/// unquoted.
pub open spec fn field_at(s: Seq<char>, i: int) -> Option<(Seq<char>, int)> {
    if i < s.len() && s[i] == '"' {
        quoted_tail(s, i + 1)
    } else {
        unquoted_field(s, i)
    }
}

/// How one record splits into its first three fields.
pub enum RecordShape {
    /// The record breaks the quoting grammar.
    Invalid,
    /// The record is well formed but has fewer than three fields.
    TooFew,
    /// The first three fields, in order; any later fields are ignored.
    Fields(Seq<char>, Seq<char>, Seq<char>),
}

/// Split one record into its first three fields. The record ends at an
/// unquoted terminator or at the end of the input; whatever follows a
/// third field after a comma is ignored.
pub open spec fn split_record(s: Seq<char>) -> RecordShape {
    match field_at(s, 0) {
        Option::None => RecordShape::Invalid,
        Option::Some((f0, i0)) => {
            if at_record_end(s, i0) {
                RecordShape::TooFew
            } else if s[i0] != ',' {
                RecordShape::Invalid
            } else {
                match field_at(s, i0 + 1) {
                    Option::None => RecordShape::Invalid,
                    Option::Some((f1, i1)) => {
                        if at_record_end(s, i1) {
                            RecordShape::TooFew
                        } else if s[i1] != ',' {
                            RecordShape::Invalid
                        } else {
                            match field_at(s, i1 + 1) {
                                Option::None => RecordShape::Invalid,
                                Option::Some((f2, i2)) => {
                                    if at_record_end(s, i2) || s[i2] == ',' {
                                        RecordShape::Fields(f0, f1, f2)
                                    } else {
                                        RecordShape::Invalid
                                    }
                                },
                            }
                        }
                    },
                }
            }
        },
    }
}

// ---------------------------------------------------------------------------
// Executable splitting.
// ---------------------------------------------------------------------------

/// Read one field starting at `i`, as `field_at` describes it.
fn parse_field(s: &Vec<char>, i: usize) -> (r: Option<(Vec<char>, usize)>)
    requires
        i <= s@.len(),
    ensures
        match r {
            Option::Some(p) => field_at(s@, i as int) == Some((p.0@, p.1 as int)) && i <= p.1
                <= s@.len(),
            Option::None => field_at(s@, i as int) is None,
        },
{
    let n = s.len();
    let mut acc: Vec<char> = Vec::new();
    if i < n && s[i] == '"' {
        let mut j: usize = i + 1;
        loop
            invariant
                i + 1 <= j <= n,
                n == s@.len(),
                i < n && s@[i as int] == '"',
                quoted_tail(s@, i + 1) == match quoted_tail(s@, j as int) {
                    Option::Some(p) => Some((acc@ + p.0, p.1)),
                    Option::None => Option::<(Seq<char>, int)>::None,
                },
            decreases n - j,
        {
            if j >= n {
                return None;
            }
            let c = s[j];
            if c == '"' {
                if j + 1 < n && s[j + 1] == '"' {
                    let ghost prev = j as int;
                    acc.push('"');
                    j = j + 2;
                    proof {
                        assert(quoted_tail(s@, prev) == (match quoted_tail(s@, j as int) {
                            Option::Some(p) => Some((seq!['"'] + p.0, p.1)),
                            Option::None => Option::<(Seq<char>, int)>::None,
                        }));
                        if quoted_tail(s@, j as int) is Some {
                            let p = quoted_tail(s@, j as int)->0;
                            assert(acc@ + p.0 =~= acc@.drop_last() + (seq!['"'] + p.0));
                        }
                    }
                } else {
                    proof {
                        assert(quoted_tail(s@, j as int) == Some((
                            Seq::<char>::empty(),
                            j + 1,
                        )));
                        assert(acc@ + Seq::<char>::empty() =~= acc@);
                    }
                    return Some((acc, j + 1));
                }
            } else {
                let ghost prev = j as int;
                acc.push(c);
                j = j + 1;
                proof {
                    assert(quoted_tail(s@, prev) == (match quoted_tail(s@, j as int) {
                        Option::Some(p) => Some((seq![c] + p.0, p.1)),
                        Option::None => Option::<(Seq<char>, int)>::None,
                    }));
                    if quoted_tail(s@, j as int) is Some {
                        let p = quoted_tail(s@, j as int)->0;
                        assert(acc@ + p.0 =~= acc@.drop_last() + (seq![c] + p.0));
                    }
                }
            }
        }
    } else {
        let mut j: usize = i;
        loop
            invariant
                i <= j <= n,
                n == s@.len(),
                !(i < n && s@[i as int] == '"'),
                unquoted_field(s@, i as int) == match unquoted_field(s@, j as int) {
                    Option::Some(p) => Some((acc@ + p.0, p.1)),
                    Option::None => Option::<(Seq<char>, int)>::None,
                },
            decreases n - j,
        {
            if j >= n {
                proof {
                    assert(unquoted_field(s@, j as int) == Some((Seq::<char>::empty(), j as int)));
                    assert(acc@ + Seq::<char>::empty() =~= acc@);
                }
                return Some((acc, j));
            }
            let c = s[j];
            if c == ',' || c == '\n' || c == '\r' {
                proof {
                    assert(unquoted_field(s@, j as int) == Some((Seq::<char>::empty(), j as int)));
                    assert(acc@ + Seq::<char>::empty() =~= acc@);
                }
                return Some((acc, j));
            }
            if c == '"' {
                proof {
                    assert(unquoted_field(s@, j as int) is None);
                }
                return None;
            }
            let ghost prev = j as int;
            acc.push(c);
            j = j + 1;
            proof {
                assert(unquoted_field(s@, prev) == (match unquoted_field(s@, j as int) {
                    Option::Some(p) => Some((seq![c] + p.0, p.1)),
                    Option::None => Option::<(Seq<char>, int)>::None,
                }));
                if unquoted_field(s@, j as int) is Some {
                    let p = unquoted_field(s@, j as int)->0;
                    assert(acc@ + p.0 =~= acc@.drop_last() + (seq![c] + p.0));
                }
            }
        }
    }
}

/// Split one record into its first three fields, as `split_record`
/// describes it: `None` exactly when the record is malformed or has
/// fewer than three fields.
pub fn split_record_exec(s: &Vec<char>) -> (r: Option<(Vec<char>, Vec<char>, Vec<char>)>)
    ensures
        match r {
            Option::Some(t) => split_record(s@) == RecordShape::Fields(t.0@, t.1@, t.2@),
            Option::None => split_record(s@) is Invalid || split_record(s@) is TooFew,
        },
{
    let n = s.len();
    let (f0, i0) = match parse_field(s, 0) {
        Option::Some(p) => p,
        Option::None => {
            return None;
        },
    };
    if i0 >= n || s[i0] == '\n' || s[i0] == '\r' {
        return None;
    }
    if s[i0] != ',' {
        return None;
    }
    let (f1, i1) = match parse_field(s, i0 + 1) {
        Option::Some(p) => p,
        Option::None => {
            return None;
        },
    };
    if i1 >= n || s[i1] == '\n' || s[i1] == '\r' {
        return None;
    }
    if s[i1] != ',' {
        return None;
    }
    let (f2, i2) = match parse_field(s, i1 + 1) {
        Option::Some(p) => p,
        Option::None => {
            return None;
        },
    };
    if i2 >= n || s[i2] == '\n' || s[i2] == '\r' || s[i2] == ',' {
        return Some((f0, f1, f2));
    }
    None
}

// ---------------------------------------------------------------------------
// Writing: quote a field, assemble a record.
// ---------------------------------------------------------------------------

/// The field content with every quote doubled.
pub open spec fn doubled(f: Seq<char>) -> Seq<char>
    decreases f.len(),
{
    if f.len() == 0 {
        Seq::<char>::empty()
    } else {
        (if f[0] == '"' {
            seq!['"', '"']
        } else {
            seq![f[0]]
        }) + doubled(f.drop_first())
    }
}

/// A field wrapped in quotes, with inner quotes doubled.
pub open spec fn quoted_field(f: Seq<char>) -> Seq<char> {
    seq!['"'] + doubled(f) + seq!['"']
}

/// No character of `f` needs CSV quoting.
pub open spec fn csv_plain(f: Seq<char>) -> bool {
    forall|k: int|
        0 <= k < f.len() ==> !(#[trigger] f[k] == ',' || f[k] == '"' || f[k] == '\n' || f[k]
            == '\r')
}

/// One encoded record: a plain first field, the other two quoted, a
/// newline terminator.
pub open spec fn record_chars(f0: Seq<char>, f1: Seq<char>, f2: Seq<char>) -> Seq<char> {
    f0 + seq![','] + quoted_field(f1) + seq![','] + quoted_field(f2) + seq!['\n']
}

/// `doubled` grows one field character at a time.
proof fn lemma_doubled_push(f: Seq<char>, c: char)
    ensures
        doubled(f.push(c)) == doubled(f) + (if c == '"' {
            seq!['"', '"']
        } else {
            seq![c]
        }),
    decreases f.len(),
{
    let piece = if c == '"' {
        seq!['"', '"']
    } else {
        seq![c]
    };
    assert(doubled(Seq::<char>::empty()) =~= Seq::<char>::empty());
    if f.len() == 0 {
        assert(f.push(c).drop_first() =~= Seq::<char>::empty());
        assert(f.push(c)[0] == c);
        assert(doubled(f.push(c)) == piece + doubled(Seq::<char>::empty()));
        assert(doubled(f.push(c)) =~= doubled(f) + piece);
    } else {
        assert(f.push(c).drop_first() =~= f.drop_first().push(c));
        assert(f.push(c)[0] == f[0]);
        lemma_doubled_push(f.drop_first(), c);
        assert(doubled(f.push(c)) =~= doubled(f) + piece);
    }
}

/// Wrap a field for the CSV layer.
pub fn quote_field(f: &Vec<char>) -> (r: Vec<char>)
    ensures
        r@ == quoted_field(f@),
{
    let n = f.len();
    let mut out: Vec<char> = Vec::new();
    out.push('"');
    let mut i: usize = 0;
    while i < n
        invariant
            i <= n,
            n == f@.len(),
            out@ == seq!['"'] + doubled(f@.subrange(0, i as int)),
        decreases n - i,
    {
        let c = f[i];
        let ghost prefix = f@.subrange(0, i as int);
        if c == '"' {
            out.push('"');
            out.push('"');
        } else {
            out.push(c);
        }
        i = i + 1;
        proof {
            lemma_doubled_push(prefix, c);
            assert(prefix.push(c) =~= f@.subrange(0, i as int));
            assert(out@ =~= seq!['"'] + doubled(f@.subrange(0, i as int)));
        }
    }
    out.push('"');
    proof {
        assert(f@.subrange(0, n as int) =~= f@);
        assert(out@ =~= quoted_field(f@));
    }
    out
}

// ---------------------------------------------------------------------------
// The round trip: splitting an assembled record restores the fields.
// ---------------------------------------------------------------------------

/// Reading a quoted field back from its doubled form restores the field.
proof fn lemma_quoted_tail_of_doubled(s: Seq<char>, i: int, f: Seq<char>)
    requires
        0 <= i,
        i + doubled(f).len() + 1 <= s.len(),
        s.subrange(i, i + doubled(f).len() as int) == doubled(f),
        s[i + doubled(f).len()] == '"',
        i + doubled(f).len() + 1 == s.len() || s[i + doubled(f).len() + 1] != '"',
    ensures
        quoted_tail(s, i) == Some((f, i + doubled(f).len() + 1)),
    decreases f.len(),
{
    let d = doubled(f);
    assert forall|m: int| 0 <= m < d.len() implies f_char_at(s, i, d, m) by {
        assert(s.subrange(i, i + d.len() as int)[m] == d[m]);
        assert(s.subrange(i, i + d.len() as int)[m] == s[i + m]);
    }
    if f.len() == 0 {
        assert(s[i] == '"');
    } else {
        let c = f[0];
        let rest = f.drop_first();
        let piece = if c == '"' {
            seq!['"', '"']
        } else {
            seq![c]
        };
        assert(d == piece + doubled(rest));
        let w = piece.len() as int;
        let k = i + w;
        assert forall|m: int| 0 <= m < doubled(rest).len() implies #[trigger] s.subrange(
            k,
            k + doubled(rest).len() as int,
        )[m] == doubled(rest)[m] by {
            assert(d[w + m] == doubled(rest)[m]);
            assert(f_char_at(s, i, d, w + m));
            assert(s.subrange(k, k + doubled(rest).len() as int)[m] == s[k + m]);
        }
        assert(s.subrange(k, k + doubled(rest).len() as int) =~= doubled(rest));
        lemma_quoted_tail_of_doubled(s, k, rest);
        if c == '"' {
            assert(f_char_at(s, i, d, 0) && f_char_at(s, i, d, 1));
            assert(s[i] == '"' && s[i + 1] == '"');
            assert(quoted_tail(s, i) == (match quoted_tail(s, i + 2) {
                Option::None => Option::<(Seq<char>, int)>::None,
                Option::Some((cc, j)) => Some((seq!['"'] + cc, j)),
            }));
            assert(seq!['"'] + rest =~= f);
        } else {
            assert(f_char_at(s, i, d, 0));
            assert(s[i] == c && c != '"');
            assert(quoted_tail(s, i) == (match quoted_tail(s, i + 1) {
                Option::None => Option::<(Seq<char>, int)>::None,
                Option::Some((cc, j)) => Some((seq![c] + cc, j)),
            }));
            assert(seq![c] + rest =~= f);
        }
    }
}

/// The character of `s` at offset `m` into the copy of `d` at `i` is the
/// character of `d` there.
pub open spec fn f_char_at(s: Seq<char>, i: int, d: Seq<char>, m: int) -> bool {
    s[i + m] == d[m]
}

/// Reading an unquoted field back stops exactly at the delimiter.
proof fn lemma_unquoted_of_plain(s: Seq<char>, i: int, f: Seq<char>)
    requires
        0 <= i,
        i + f.len() <= s.len(),
        s.subrange(i, i + f.len() as int) == f,
        csv_plain(f),
        i + f.len() == s.len() || s[i + f.len()] == ',' || s[i + f.len()] == '\n' || s[i + f.len()]
            == '\r',
    ensures
        unquoted_field(s, i) == Some((f, i + f.len())),
    decreases f.len(),
{
    if f.len() == 0 {
    } else {
        let c = f[0];
        let rest = f.drop_first();
        assert(s.subrange(i, i + f.len() as int)[0] == f[0]);
        assert(s[i] == c);
        assert(!(c == ',' || c == '"' || c == '\n' || c == '\r'));
        assert forall|m: int| 0 <= m < rest.len() implies #[trigger] s.subrange(
            i + 1,
            i + 1 + rest.len() as int,
        )[m] == rest[m] by {
            assert(s.subrange(i, i + f.len() as int)[m + 1] == f[m + 1]);
            assert(s.subrange(i + 1, i + 1 + rest.len() as int)[m] == s[i + 1 + m]);
            assert(f[m + 1] == rest[m]);
        }
        assert(s.subrange(i + 1, i + 1 + rest.len() as int) =~= rest);
        assert(csv_plain(rest)) by {
            assert(forall|k: int| 0 <= k < rest.len() ==> #[trigger] rest[k] == f[k + 1]);
        };
        lemma_unquoted_of_plain(s, i + 1, rest);
        assert(seq![c] + rest =~= f);
    }
}

/// Splitting an assembled record restores the three fields exactly,
/// whatever characters the quoted fields hold.
pub proof fn lemma_split_of_record(f0: Seq<char>, f1: Seq<char>, f2: Seq<char>)
    requires
        csv_plain(f0),
    ensures
        split_record(record_chars(f0, f1, f2)) == RecordShape::Fields(f0, f1, f2),
{
    let s = record_chars(f0, f1, f2);
    let q1 = quoted_field(f1);
    let q2 = quoted_field(f2);
    let i0 = f0.len() as int;
    let i1 = i0 + 1 + q1.len() as int;
    let i2 = i1 + 1 + q2.len() as int;
    assert(s.len() == i2 + 1);
    assert(s[i0] == ',');
    assert(s[i1] == ',');
    assert(s[i2] == '\n');
    assert(s.subrange(0, i0) =~= f0);
    lemma_unquoted_of_plain(s, 0, f0);
    assert(field_at(s, 0) == Some((f0, i0))) by {
        if 0 < s.len() && s[0] == '"' {
            assert(csv_plain(f0) && f0.len() > 0 ==> f0[0] != '"');
            assert(f0.len() > 0 ==> s[0] == f0[0]);
            assert(false);
        }
    };
    assert(s[i0 + 1] == '"');
    assert(s.subrange(i0 + 2, i0 + 2 + doubled(f1).len() as int) =~= doubled(f1));
    assert(s[i0 + 2 + doubled(f1).len()] == '"');
    assert(s[i0 + 2 + doubled(f1).len() + 1] == ',');
    lemma_quoted_tail_of_doubled(s, i0 + 2, f1);
    assert(field_at(s, i0 + 1) == Some((f1, i1)));
    assert(s[i1 + 1] == '"');
    assert(s.subrange(i1 + 2, i1 + 2 + doubled(f2).len() as int) =~= doubled(f2));
    assert(s[i1 + 2 + doubled(f2).len()] == '"');
    assert(s[i1 + 2 + doubled(f2).len() + 1] == '\n');
    lemma_quoted_tail_of_doubled(s, i1 + 2, f2);
    assert(field_at(s, i1 + 1) == Some((f2, i2)));
    assert(!at_record_end(s, i0));
    assert(!at_record_end(s, i1));
    assert(at_record_end(s, i2));
}

} // verus!
