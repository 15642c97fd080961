//! Diagnostic metadata: a coded error value and a small text record.

use vstd::prelude::*;
use vstd::string::StrSliceExecFns;
use vstd::string::StringExecFns;
use crate::text::{all_digits, dec_val, split_lines, strip_cr, u32_to_dec, push_char,
    find_char_exec, parse_dec_capped, dec_digits};

verus! {

/// An error with a message and a numeric code.
#[derive(Debug, PartialEq, Eq)]
pub struct Error {
    pub message: String,
    pub code: u32,
}

/// One step of the line scan behind `Error::from_str`: the first line
/// becomes the message (empty lines are skipped until one arrives), every
/// later line must be a decimal code, and the last such code wins.  The
/// flag records whether a later line failed to parse as a code.
pub open spec fn err_scan(lines: Seq<Seq<char>>, message: Seq<char>, code: nat, ok: bool) -> (
    Seq<char>,
    nat,
    bool,
)
    decreases lines.len(),
{
    if lines.len() == 0 {
        (message, code, ok)
    } else {
        let l = lines[0];
        if message.len() == 0 {
            err_scan(lines.drop_first(), l, code, ok)
        } else if l.len() > 0 && all_digits(l) && dec_val(l) <= u32::MAX {
            err_scan(lines.drop_first(), message, dec_val(l), ok)
        } else {
            err_scan(lines.drop_first(), message, code, false)
        }
    }
}

/// Once the scan has seen a line that is no decimal code, it never
/// reports success.
proof fn lemma_err_scan_false(lines: Seq<Seq<char>>, message: Seq<char>, code: nat)
    ensures
        !err_scan(lines, message, code, false).2,
    decreases lines.len(),
{
    if lines.len() > 0 {
        let l = lines[0];
        if message.len() == 0 {
            lemma_err_scan_false(lines.drop_first(), l, code);
        } else if l.len() > 0 && all_digits(l) && dec_val(l) <= u32::MAX {
            lemma_err_scan_false(lines.drop_first(), message, dec_val(l));
        } else {
            lemma_err_scan_false(lines.drop_first(), message, code);
        }
    }
}

impl Error {
    /// Pack a message and a code.
    pub fn new(message: String, code: u32) -> (r: Self)
        ensures
            r.message@ == message@,
            r.code == code,
    {
        Error { message, code }
    }

    /// A fresh copy.
    pub fn clone(&self) -> (r: Self)
        ensures
            r.message@ == self.message@,
            r.code == self.code,
    {
        Error { message: self.message.clone(), code: self.code }
    }

    /// Order errors by their code alone.
    pub fn cmp(&self, other: &Self) -> (r: core::cmp::Ordering)
        ensures
            r == core::cmp::Ordering::Less <==> self.code < other.code,
            r == core::cmp::Ordering::Equal <==> self.code == other.code,
            r == core::cmp::Ordering::Greater <==> self.code > other.code,
    {
        if self.code < other.code {
            core::cmp::Ordering::Less
        } else if self.code > other.code {
            core::cmp::Ordering::Greater
        } else {
            core::cmp::Ordering::Equal
        }
    }

    /// As `cmp`, wrapped the way partial comparison presents it.
    pub fn partial_cmp(&self, other: &Self) -> (r: Option<core::cmp::Ordering>)
        ensures
            r == Some(self.cmp_spec(other)),
    {
        Some(self.cmp(other))
    }

    /// The ordering `cmp` returns, as a specification value.
    pub open spec fn cmp_spec(&self, other: &Self) -> core::cmp::Ordering {
        if self.code < other.code {
            core::cmp::Ordering::Less
        } else if self.code > other.code {
            core::cmp::Ordering::Greater
        } else {
            core::cmp::Ordering::Equal
        }
    }

    /// Render as `code: message`.
    pub fn to_string(&self) -> (r: String)
        ensures
            r@ == dec_digits(self.code as nat) + seq![':', ' '] + self.message@,
    {
        let mut out = u32_to_dec(self.code);
        push_char(&mut out, ':');
        push_char(&mut out, ' ');
        out.append(self.message.as_str());
        proof {
            assert(out@ =~= dec_digits(self.code as nat) + seq![':', ' '] + self.message@);
        }
        out
    }

    /// Read an error back from lines of text: the first non-empty line is
    /// the message, each later line a decimal code, the last code winning.
    /// Text whose later lines are not decimal codes is outside this
    /// function's domain.
    pub fn from_str(s: &str) -> (r: Result<Self, Self>)
        requires
            err_scan(split_lines(s@), Seq::empty(), 0, true).2,
        ensures
            r is Ok,
            r.unwrap().message@ == err_scan(split_lines(s@), Seq::empty(), 0, true).0,
            r.unwrap().code as nat == err_scan(split_lines(s@), Seq::empty(), 0, true).1,
    {
        let ghost all = split_lines(s@);
        let mut message = String::new();
        let mut code: u32 = 0;
        let mut rest: &str = s;
        proof {
            assert(err_scan(all, Seq::empty(), 0, true) == err_scan(
                split_lines(rest@),
                message@,
                code as nat,
                true,
            ));
        }
        loop
            invariant
                err_scan(all, Seq::empty(), 0, true) == err_scan(
                    split_lines(rest@),
                    message@,
                    code as nat,
                    true,
                ),
                err_scan(all, Seq::empty(), 0, true).2,
            ensures
                rest@.len() == 0,
                err_scan(all, Seq::empty(), 0, true) == err_scan(
                    split_lines(rest@),
                    message@,
                    code as nat,
                    true,
                ),
            decreases rest@.len(),
        {
            let n = rest.unicode_len();
            if n == 0 {
                break ;
            }
            let (line_end, next_start): (usize, usize) = match find_char_exec(rest, '\n') {
                Some(d) => {
                    proof {
                        crate::text::lemma_find_char(rest@, '\n');
                    }
                    (d, d + 1)
                },
                None => (n, n),
            };
            let raw_line = rest.substring_char(0, line_end);
            let next = rest.substring_char(next_start, n);
            proof {
                if line_end < n {
                    assert(raw_line@ =~= rest@.take(line_end as int));
                    assert(next@ =~= rest@.skip(line_end + 1));
                    assert(split_lines(rest@) =~= seq![strip_cr(rest@.take(line_end as int))]
                        + split_lines(rest@.skip(line_end + 1)));
                } else {
                    assert(raw_line@ =~= rest@);
                    assert(next@ =~= Seq::<char>::empty());
                    assert(split_lines(next@) =~= Seq::<Seq<char>>::empty());
                    assert(split_lines(rest@) =~= seq![strip_cr(rest@)]);
                    assert(split_lines(rest@) =~= seq![strip_cr(raw_line@)] + split_lines(next@));
                }
            }
            // strip a trailing carriage return, as line iteration does
            let ln = raw_line.unicode_len();
            let line = if ln > 0 && raw_line.get_char(ln - 1) == '\r' {
                raw_line.substring_char(0, ln - 1)
            } else {
                raw_line
            };
            proof {
                if ln > 0 && raw_line@.last() == '\r' {
                    assert(line@ =~= raw_line@.drop_last());
                }
                assert(line@ == strip_cr(raw_line@));
                assert(split_lines(rest@) =~= seq![line@] + split_lines(next@));
                assert((seq![line@] + split_lines(next@)).drop_first() =~= split_lines(next@));
                assert((seq![line@] + split_lines(next@))[0] == line@);
            }
            if message.as_str().unicode_len() == 0 {
                message = line.to_owned();
            } else {
                match parse_dec_capped(line, 0x1_0000_0000) {
                    Some(v) if v <= 0xFFFF_FFFFu64 => {
                        code = v as u32;
                    },
                    _ => {
                        // a later line that is no decimal code lies outside
                        // the stated domain
                        proof {
                            lemma_err_scan_false(split_lines(next@), message@, code as nat);
                            assert(false);
                        }
                    },
                }
            }
            rest = next;
        }
        proof {
            assert(split_lines(rest@) =~= Seq::<Seq<char>>::empty());
        }
        Ok(Error { message, code })
    }

    /// Render as `code: message`; the same text `to_string` yields.
    pub fn display(&self) -> (r: String)
        ensures
            r@ == dec_digits(self.code as nat) + seq![':', ' '] + self.message@,
    {
        self.to_string()
    }

    /// The message text.
    pub fn message(&self) -> (r: &String)
        ensures
            r@ == self.message@,
    {
        &self.message
    }

    /// Replace the message.
    pub fn set_message(&mut self, message: String)
        ensures
            final(self).message@ == message@,
            final(self).code == old(self).code,
    {
        self.message = message;
    }

    /// Replace the code.
    pub fn set_code(&mut self, code: u32)
        ensures
            final(self).message@ == old(self).message@,
            final(self).code == code,
    {
        self.code = code;
    }
}

/// A small text record: a name, a description, and detail lines.
#[derive(Debug, PartialEq, Eq)]
pub struct Info {
    pub data: Vec<String>,
}

/// Lines joined by line feeds.
pub open spec fn join_nl(ds: Seq<Seq<char>>) -> Seq<char>
    decreases ds.len(),
{
    if ds.len() == 0 {
        Seq::empty()
    } else if ds.len() == 1 {
        ds[0]
    } else {
        join_nl(ds.drop_last()) + seq!['\n'] + ds.last()
    }
}

/// One step of the line scan behind `Info::from_str`: the first non-empty
/// line is the name, the next the description, the rest joined as details.
pub open spec fn info_scan(
    lines: Seq<Seq<char>>,
    name: Seq<char>,
    desc: Seq<char>,
    dets: Seq<Seq<char>>,
) -> (Seq<char>, Seq<char>, Seq<Seq<char>>)
    decreases lines.len(),
{
    if lines.len() == 0 {
        (name, desc, dets)
    } else {
        let l = lines[0];
        if name.len() == 0 {
            info_scan(lines.drop_first(), l, desc, dets)
        } else if desc.len() == 0 {
            info_scan(lines.drop_first(), name, l, dets)
        } else {
            info_scan(lines.drop_first(), name, desc, dets.push(l))
        }
    }
}

impl Info {
    /// An empty record.
    pub fn new() -> (r: Info)
        ensures
            r.data@.len() == 0,
    {
        Info { data: Vec::new() }
    }

    /// Replace the whole record and return a copy of it.
    pub fn set(&mut self, name: String, description: String, details: Vec<String>) -> (r: Info)
        ensures
            final(self).data@.len() == 2 + details@.len(),
            final(self).data@[0]@ == name@,
            final(self).data@[1]@ == description@,
            forall|i: int|
                0 <= i < details@.len() ==> (#[trigger] final(self).data@[i + 2])@ == details@[i]@,
            r.data@.len() == final(self).data@.len(),
            forall|i: int|
                0 <= i < r.data@.len() ==> (#[trigger] r.data@[i])@ == final(self).data@[i]@,
    {
        self.data.clear();
        self.data.push(name);
        self.data.push(description);
        let mut i: usize = 0;
        while i < details.len()
            invariant
                i <= details@.len(),
                self.data@.len() == 2 + i,
                self.data@[0]@ == name@,
                self.data@[1]@ == description@,
                forall|k: int|
                    0 <= k < i ==> (#[trigger] self.data@[k + 2])@ == details@[k]@,
            decreases details@.len() - i,
        {
            self.data.push(details[i].clone());
            i = i + 1;
        }
        self.clone()
    }

    /// A fresh copy of the record.
    pub fn clone(&self) -> (r: Info)
        ensures
            r.data@.len() == self.data@.len(),
            forall|i: int|
                0 <= i < r.data@.len() ==> (#[trigger] r.data@[i])@ == self.data@[i]@,
    {
        let mut out: Vec<String> = Vec::new();
        let mut i: usize = 0;
        while i < self.data.len()
            invariant
                i <= self.data@.len(),
                out@.len() == i,
                forall|k: int| 0 <= k < i ==> (#[trigger] out@[k])@ == self.data@[k]@,
            decreases self.data@.len() - i,
        {
            out.push(self.data[i].clone());
            i = i + 1;
        }
        Info { data: out }
    }

    /// The name line; a record without one is a caller error.
    pub fn name(&self) -> (r: &String)
        requires
            self.data@.len() >= 1,
        ensures
            r@ == self.data@[0]@,
    {
        &self.data[0]
    }

    /// The description line; a record without one is a caller error.
    pub fn description(&self) -> (r: &String)
        requires
            self.data@.len() >= 2,
        ensures
            r@ == self.data@[1]@,
    {
        &self.data[1]
    }

    /// Copies of the detail lines.
    pub fn details(&self) -> (r: Vec<String>)
        requires
            self.data@.len() >= 2,
        ensures
            r@.len() == self.data@.len() - 2,
            forall|i: int| 0 <= i < r@.len() ==> (#[trigger] r@[i])@ == self.data@[i + 2]@,
    {
        let mut out: Vec<String> = Vec::new();
        let mut i: usize = 2;
        while i < self.data.len()
            invariant
                2 <= i <= self.data@.len() || (self.data@.len() < 2 && i == 2),
                self.data@.len() >= 2,
                out@.len() == i - 2,
                forall|k: int| 0 <= k < i - 2 ==> (#[trigger] out@[k])@ == self.data@[k + 2]@,
            decreases self.data@.len() - i,
        {
            out.push(self.data[i].clone());
            i = i + 1;
        }
        out
    }

    /// Replace the name line.
    pub fn set_name(&mut self, name: String)
        requires
            old(self).data@.len() >= 1,
        ensures
            final(self).data@.len() == old(self).data@.len(),
            final(self).data@[0]@ == name@,
            forall|i: int|
                1 <= i < old(self).data@.len() ==> (#[trigger] final(self).data@[i])@ == old(
                    self,
                ).data@[i]@,
    {
        self.data.set(0, name);
    }

    /// Replace the description line.
    pub fn set_description(&mut self, description: String)
        requires
            old(self).data@.len() >= 2,
        ensures
            final(self).data@.len() == old(self).data@.len(),
            final(self).data@[1]@ == description@,
            forall|i: int|
                0 <= i < old(self).data@.len() && i != 1 ==> (#[trigger] final(self).data@[i])@
                    == old(self).data@[i]@,
    {
        self.data.set(1, description);
    }

    /// Replace the detail lines, keeping the name and description.
    pub fn set_details(&mut self, details: Vec<String>)
        requires
            old(self).data@.len() >= 2,
        ensures
            final(self).data@.len() == 2 + details@.len(),
            final(self).data@[0]@ == old(self).data@[0]@,
            final(self).data@[1]@ == old(self).data@[1]@,
            forall|i: int|
                0 <= i < details@.len() ==> (#[trigger] final(self).data@[i + 2])@ == details@[i]@,
    {
        let name = self.data[0].clone();
        let description = self.data[1].clone();
        self.data.clear();
        self.data.push(name);
        self.data.push(description);
        let mut i: usize = 0;
        while i < details.len()
            invariant
                i <= details@.len(),
                self.data@.len() == 2 + i,
                self.data@[0]@ == old(self).data@[0]@,
                self.data@[1]@ == old(self).data@[1]@,
                forall|k: int|
                    0 <= k < i ==> (#[trigger] self.data@[k + 2])@ == details@[k]@,
            decreases details@.len() - i,
        {
            self.data.push(details[i].clone());
            i = i + 1;
        }
    }

    /// Append copies of another record's detail lines to this record.
    pub fn append(&mut self, info: &mut Info)
        requires
            old(info).data@.len() >= 2,
        ensures
            final(self).data@.len() == old(self).data@.len() + old(info).data@.len() - 2,
            forall|i: int|
                0 <= i < old(self).data@.len() ==> (#[trigger] final(self).data@[i])@ == old(
                    self,
                ).data@[i]@,
            forall|i: int|
                0 <= i < old(info).data@.len() - 2 ==> (#[trigger] final(self).data@[old(
                    self,
                ).data@.len() + i])@ == old(info).data@[i + 2]@,
            final(info).data@.len() == old(info).data@.len(),
            forall|i: int|
                0 <= i < old(info).data@.len() ==> (#[trigger] final(info).data@[i])@ == old(
                    info,
                ).data@[i]@,
    {
        let mut i: usize = 2;
        while i < info.data.len()
            invariant
                2 <= i <= info.data@.len() || (info.data@.len() < 2 && i == 2),
                info.data@.len() >= 2,
                info.data@ == old(info).data@,
                self.data@.len() == old(self).data@.len() + i - 2,
                forall|k: int|
                    0 <= k < old(self).data@.len() ==> (#[trigger] self.data@[k])@ == old(
                        self,
                    ).data@[k]@,
                forall|k: int|
                    0 <= k < i - 2 ==> (#[trigger] self.data@[old(self).data@.len() + k])@ == old(
                        info,
                    ).data@[k + 2]@,
            decreases info.data@.len() - i,
        {
            self.data.push(info.data[i].clone());
            i = i + 1;
        }
    }

    /// Append one detail line.
    pub fn push(&mut self, detail: String)
        requires
            old(self).data@.len() >= 2,
        ensures
            final(self).data@.len() == old(self).data@.len() + 1,
            forall|i: int|
                0 <= i < old(self).data@.len() ==> (#[trigger] final(self).data@[i])@ == old(
                    self,
                ).data@[i]@,
            final(self).data@.last()@ == detail@,
    {
        self.data.push(detail);
    }

    /// Remove and return the last detail line, if any.
    pub fn pop(&mut self) -> (r: Option<String>)
        requires
            old(self).data@.len() >= 2,
        ensures
            old(self).data@.len() == 2 ==> r is None && final(self).data@ == old(self).data@,
            old(self).data@.len() > 2 ==> r is Some && r.unwrap()@ == old(self).data@.last()@
                && final(self).data@ == old(self).data@.drop_last(),
    {
        if self.data.len() == 2 {
            None
        } else {
            self.data.pop()
        }
    }

    /// The number of detail lines.
    pub fn len(&self) -> (r: usize)
        requires
            self.data@.len() >= 2,
        ensures
            r == self.data@.len() - 2,
    {
        self.data.len() - 2
    }

    /// Whether the record holds no detail lines.
    pub fn is_empty(&self) -> (r: bool)
        requires
            self.data@.len() >= 2,
        ensures
            r == (self.data@.len() == 2),
    {
        self.data.len() == 2
    }

    /// Render the record: name, description and detail lines, one per
    /// line.
    pub fn to_string(&self) -> (r: String)
        requires
            self.data@.len() >= 2,
        ensures
            r@ == self.data@[0]@ + seq!['\n'] + self.data@[1]@ + seq!['\n'] + join_nl(
                self.data@.skip(2).map_values(|x: String| x@),
            ),
    {
        let ghost f = |x: String| x@;
        let mut out = self.data[0].clone();
        push_char(&mut out, '\n');
        out.append(self.data[1].as_str());
        push_char(&mut out, '\n');
        let mut i: usize = 2;
        let ghost head = self.data@[0]@ + seq!['\n'] + self.data@[1]@ + seq!['\n'];
        proof {
            assert(out@ =~= head + join_nl(self.data@.skip(2).map_values(f).take(0)));
        }
        while i < self.data.len()
            invariant
                f == (|x: String| x@),
                head == self.data@[0]@ + seq!['\n'] + self.data@[1]@ + seq!['\n'],
                2 <= i <= self.data@.len() || (self.data@.len() < 2 && i == 2),
                self.data@.len() >= 2,
                out@ == head + join_nl(self.data@.skip(2).map_values(f).take(i - 2)),
            decreases self.data@.len() - i,
    {
            if i > 2 {
                push_char(&mut out, '\n');
            }
            out.append(self.data[i].as_str());
            proof {
                let ds = self.data@.skip(2).map_values(f);
                assert(ds.take(i - 1).drop_last() =~= ds.take(i - 2));
                assert(ds.take(i - 1).last() == ds[i - 2]);
                assert(ds[i - 2] == self.data@[i as int]@);
                assert(ds.take(i - 1)[0] == ds[0]);
                assert(out@ =~= head + join_nl(ds.take(i - 1)));
            }
            i = i + 1;
        }
        proof {
            let ds = self.data@.skip(2).map_values(f);
            assert(ds.take(ds.len() as int) =~= ds);
        }
        out
    }

    /// Read a record back from lines of text: the first non-empty line is
    /// the name, the next the description, the rest joined as details.  A
    /// record needs both a name and a description.
    pub fn from_str(s: &str) -> (r: Result<Info, Error>)
        ensures
            ({
                let sc = info_scan(split_lines(s@), Seq::empty(), Seq::empty(), Seq::empty());
                &&& (r is Ok) == (sc.0.len() > 0 && sc.1.len() > 0)
                &&& r is Ok ==> r.unwrap().data@.len() == 3 && r.unwrap().data@[0]@ == sc.0
                    && r.unwrap().data@[1]@ == sc.1 && r.unwrap().data@[2]@ == join_nl(sc.2)
                &&& r is Err ==> r.unwrap_err().code == 2
            }),
    {
        let ghost all = split_lines(s@);
        let mut name = String::new();
        let mut description = String::new();
        let mut details: Vec<String> = Vec::new();
        let ghost f = |x: String| x@;
        let mut rest: &str = s;
        proof {
            assert(details@.map_values(f) =~= Seq::<Seq<char>>::empty());
        }
        loop
            invariant
                f == (|x: String| x@),
                info_scan(all, Seq::empty(), Seq::empty(), Seq::empty()) == info_scan(
                    split_lines(rest@),
                    name@,
                    description@,
                    details@.map_values(f),
                ),
            ensures
                rest@.len() == 0,
                info_scan(all, Seq::empty(), Seq::empty(), Seq::empty()) == (
                    name@,
                    description@,
                    details@.map_values(f),
                ),
            decreases rest@.len(),
        {
            let n = rest.unicode_len();
            if n == 0 {
                proof {
                    assert(split_lines(rest@) =~= Seq::<Seq<char>>::empty());
                }
                break ;
            }
            let (line_end, next_start): (usize, usize) = match find_char_exec(rest, '\n') {
                Some(d) => (d, d + 1),
                None => (n, n),
            };
            let raw_line = rest.substring_char(0, line_end);
            let next = rest.substring_char(next_start, n);
            proof {
                if line_end < n {
                    assert(raw_line@ =~= rest@.take(line_end as int));
                    assert(next@ =~= rest@.skip(line_end + 1));
                    assert(split_lines(rest@) =~= seq![strip_cr(rest@.take(line_end as int))]
                        + split_lines(rest@.skip(line_end + 1)));
                } else {
                    assert(raw_line@ =~= rest@);
                    assert(next@ =~= Seq::<char>::empty());
                    assert(split_lines(next@) =~= Seq::<Seq<char>>::empty());
                    assert(split_lines(rest@) =~= seq![strip_cr(rest@)]);
                }
            }
            let ln = raw_line.unicode_len();
            let line = if ln > 0 && raw_line.get_char(ln - 1) == '\r' {
                raw_line.substring_char(0, ln - 1)
            } else {
                raw_line
            };
            proof {
                if ln > 0 && raw_line@.last() == '\r' {
                    assert(line@ =~= raw_line@.drop_last());
                }
                assert(line@ == strip_cr(raw_line@));
                assert(split_lines(rest@) =~= seq![line@] + split_lines(next@));
                assert((seq![line@] + split_lines(next@)).drop_first() =~= split_lines(next@));
                assert((seq![line@] + split_lines(next@))[0] == line@);
            }
            if name.as_str().unicode_len() == 0 {
                name = line.to_owned();
            } else if description.as_str().unicode_len() == 0 {
                description = line.to_owned();
            } else {
                let ghost before = details@;
                details.push(line.to_owned());
                proof {
                    assert(details@.map_values(f) =~= before.map_values(f).push(line@));
                }
            }
            rest = next;
        }
        if name.as_str().unicode_len() == 0 || description.as_str().unicode_len() == 0 {
            return Err(Error::new("Invalid format".to_owned(), 2));
        }
        // join the detail lines into one stored entry
        let mut joined = String::new();
        let mut i: usize = 0;
        proof {
            assert(details@.map_values(f).take(0) =~= Seq::<Seq<char>>::empty());
        }
        while i < details.len()
            invariant
                f == (|x: String| x@),
                i <= details@.len(),
                joined@ == join_nl(details@.map_values(f).take(i as int)),
            decreases details@.len() - i,
        {
            if i > 0 {
                push_char(&mut joined, '\n');
            }
            out_append(&mut joined, details[i].as_str());
            proof {
                let ds = details@.map_values(f);
                assert(ds.take(i + 1).drop_last() =~= ds.take(i as int));
                assert(ds.take(i + 1).last() == ds[i as int]);
                assert(ds.take(i + 1)[0] == ds[0]);
                assert(joined@ =~= join_nl(ds.take(i + 1)));
            }
            i = i + 1;
        }
        proof {
            let ds = details@.map_values(f);
            assert(ds.take(ds.len() as int) =~= ds);
        }
        let mut data: Vec<String> = Vec::new();
        data.push(name);
        data.push(description);
        data.push(joined);
        Ok(Info { data })
    }
}

/// Append a string slice to a string.
fn out_append(s: &mut String, t: &str)
    ensures
        final(s)@ == old(s)@ + t@,
{
    s.append(t);
}

} // verus!
