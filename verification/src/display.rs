//! Pure rendering logic: when to redraw, and the exact text of each frame.
//!
//! The terminal backend itself (cursor movement, clearing) is outside this
//! crate; these functions compute the status line and the ranked rows that
//! a frame shows, and drive the redraw schedule.

use vstd::prelude::*;

verus! {

/// Number of digits in the decimal representation of `n`.
pub open spec fn spec_digits(n: nat) -> nat
    decreases n,
{
    if n < 10 {
        1
    } else {
        1 + spec_digits(n / 10)
    }
}

/// Width of the count column: the number of decimal digits of `n`.
pub fn digit_width(n: usize) -> (w: usize)
    ensures
        w == spec_digits(n as nat),
{
    let mut rest: usize = n;
    let mut w: usize = 1;
    while rest >= 10
        invariant
            w >= 1,
            w + rest <= 1 + n,
            w + spec_digits(rest as nat) == 1 + spec_digits(n as nat),
        decreases rest,
    {
        rest = rest / 10;
        w = w + 1;
    }
    w
}

/// The character for one decimal digit.
pub open spec fn spec_digit_char(d: nat) -> char {
    if d == 0 {
        '0'
    } else if d == 1 {
        '1'
    } else if d == 2 {
        '2'
    } else if d == 3 {
        '3'
    } else if d == 4 {
        '4'
    } else if d == 5 {
        '5'
    } else if d == 6 {
        '6'
    } else if d == 7 {
        '7'
    } else if d == 8 {
        '8'
    } else {
        '9'
    }
}

/// The decimal representation of `n`, most significant digit first.
pub open spec fn spec_dec(n: nat) -> Seq<char>
    decreases n,
{
    if n < 10 {
        seq![spec_digit_char(n)]
    } else {
        spec_dec(n / 10).push(spec_digit_char(n % 10))
    }
}

/// One decimal digit as text.
fn digit_str(d: usize) -> (r: &'static str)
    requires
        d < 10,
    ensures
        r@ == seq![spec_digit_char(d as nat)],
{
    let r = if d == 0 {
        "0"
    } else if d == 1 {
        "1"
    } else if d == 2 {
        "2"
    } else if d == 3 {
        "3"
    } else if d == 4 {
        "4"
    } else if d == 5 {
        "5"
    } else if d == 6 {
        "6"
    } else if d == 7 {
        "7"
    } else if d == 8 {
        "8"
    } else {
        "9"
    };
    proof {
        reveal_strlit("0");
        reveal_strlit("1");
        reveal_strlit("2");
        reveal_strlit("3");
        reveal_strlit("4");
        reveal_strlit("5");
        reveal_strlit("6");
        reveal_strlit("7");
        reveal_strlit("8");
        reveal_strlit("9");
        assert(r@ =~= seq![spec_digit_char(d as nat)]);
    }
    r
}

/// Renders `n` in decimal.
pub fn dec_string(n: usize) -> (r: String)
    ensures
        r@ == spec_dec(n as nat),
    decreases n,
{
    if n < 10 {
        digit_str(n).to_owned()
    } else {
        let mut s = dec_string(n / 10);
        s.append(digit_str(n % 10));
        proof {
            assert(s@ =~= spec_dec(n as nat));
        }
        s
    }
}

/// A number's decimal text is exactly as wide as its digit count.
pub proof fn lemma_spec_dec_len(n: nat)
    ensures
        spec_dec(n).len() == spec_digits(n),
    decreases n,
{
    if n >= 10 {
        lemma_spec_dec_len(n / 10);
    }
}

/// `n` spaces.
pub open spec fn spaces(n: nat) -> Seq<char>
    decreases n,
{
    if n == 0 {
        Seq::empty()
    } else {
        spaces((n - 1) as nat).push(' ')
    }
}

/// The status line of a frame.
pub open spec fn spec_status_line(total: nat, unique: nat) -> Seq<char> {
    spec_dec(total) + " total, "@ + spec_dec(unique) + " unique lines"@
}

/// Builds the status line: the totals, spelled out.
pub fn status_line(total: usize, unique: usize) -> (r: String)
    ensures
        r@ == spec_status_line(total as nat, unique as nat),
{
    let mut s = dec_string(total);
    s.append(" total, ");
    let u = dec_string(unique);
    s.append(u.as_str());
    s.append(" unique lines");
    s
}

/// `line` cut down to at most `w` characters.
pub open spec fn truncated(line: Seq<char>, w: nat) -> Seq<char> {
    if line.len() <= w {
        line
    } else {
        line.subrange(0, w as int)
    }
}

/// One ranked row: the count right-aligned in `count_width` columns, then,
/// if the terminal is wide enough, a separator and the line text truncated
/// to the remaining width.
pub open spec fn spec_row(count: nat, line: Seq<char>, count_width: nat, width: nat) -> Seq<char> {
    let num = spec_dec(count);
    let padded = if num.len() < count_width {
        spaces((count_width - num.len()) as nat) + num
    } else {
        num
    };
    if count_width + 2 < width {
        padded + ": "@ + truncated(line, (width - count_width - 2) as nat)
    } else {
        padded
    }
}

/// Builds one ranked row.
pub fn row_string(count: usize, line: &str, count_width: usize, width: usize) -> (r: String)
    ensures
        r@ == spec_row(count as nat, line@, count_width as nat, width as nat),
{
    let num = dec_string(count);
    let num_len = digit_width(count);
    proof {
        reveal_strlit(" ");
        lemma_spec_dec_len(count as nat);
        assert(num_len == num@.len());
    }
    let mut s = String::new();
    if num_len < count_width {
        let pad = count_width - num_len;
        proof {
            assert(s@ =~= spaces(0));
        }
        let mut p: usize = 0;
        while p < pad
            invariant
                p <= pad,
                s@ == spaces(p as nat),
            decreases pad - p,
        {
            s.append(" ");
            proof {
                reveal_strlit(" ");
                assert(s@ =~= spaces((p + 1) as nat));
            }
            p = p + 1;
        }
    }
    s.append(num.as_str());
    if count_width < width && width - count_width > 2 {
        s.append(": ");
        let room = width - count_width - 2;
        let line_len = line.unicode_len();
        if line_len <= room {
            s.append(line);
        } else {
            s.append(line.substring_char(0, room));
        }
    }
    proof {
        assert(s@ =~= spec_row(count as nat, line@, count_width as nat, width as nat));
    }
    s
}

/// The ranked rows of one frame. With fewer than two terminal rows nothing
/// fits below the status line; otherwise the first `height - 1` ranking
/// entries are shown, every count right-aligned to the width of the first
/// (largest) count.
pub fn render_rows(ranking: &Vec<(usize, String)>, width: usize, height: usize) -> (r: Vec<String>)
    ensures
        height <= 1 ==> r@.len() == 0,
        height >= 2 ==> r@.len() == (if ranking@.len() < height - 1 {
            ranking@.len() as int
        } else {
            (height - 1) as int
        }),
        forall|i: int|
            0 <= i < r@.len() ==> (#[trigger] r@[i])@ == spec_row(
                ranking@[i].0 as nat,
                ranking@[i].1@,
                spec_digits(ranking@[0].0 as nat),
                width as nat,
            ),
{
    let mut rows: Vec<String> = Vec::new();
    if height <= 1 {
        return rows;
    }
    let take = height - 1;
    let n = ranking.len();
    let limit = if n < take {
        n
    } else {
        take
    };
    if limit == 0 {
        return rows;
    }
    let count_width = digit_width(ranking[0].0);
    let mut i: usize = 0;
    while i < limit
        invariant
            limit <= ranking@.len(),
            ranking@.len() > 0,
            count_width == spec_digits(ranking@[0].0 as nat),
            i <= limit,
            rows@.len() == i,
            forall|j: int|
                0 <= j < i ==> (#[trigger] rows@[j])@ == spec_row(
                    ranking@[j].0 as nat,
                    ranking@[j].1@,
                    spec_digits(ranking@[0].0 as nat),
                    width as nat,
                ),
        decreases limit - i,
    {
        let row = row_string(ranking[i].0, ranking[i].1.as_str(), count_width, width);
        rows.push(row);
        i = i + 1;
    }
    rows
}

/// Redraw bookkeeping for the display loop.
pub struct DisplayState {
    pub first_frame: bool,
    pub last_total: usize,
    pub next_forced_redraw_ms: u64,
}

impl DisplayState {
    /// The initial state: the first frame is pending and a redraw is due at
    /// once.
    pub fn new(now_ms: u64) -> (r: DisplayState)
        ensures
            r.first_frame,
            r.last_total == 0,
            r.next_forced_redraw_ms == now_ms,
    {
        DisplayState { first_frame: true, last_total: 0, next_forced_redraw_ms: now_ms }
    }

    /// One poll of the display loop: the frame is redrawn when it is the
    /// first one, when the total changed since the last poll, or when the
    /// forced-redraw deadline has passed; a redraw pushes that deadline out
    /// by five seconds.
    pub fn step(&mut self, total: usize, now_ms: u64) -> (redraw: bool)
        requires
            now_ms + 5000 <= u64::MAX,
        ensures
            redraw == (old(self).first_frame || total != old(self).last_total || now_ms >= old(
                self,
            ).next_forced_redraw_ms),
            !final(self).first_frame,
            final(self).last_total == total,
            final(self).next_forced_redraw_ms == if redraw {
                now_ms + 5000
            } else {
                old(self).next_forced_redraw_ms as int
            },
    {
        let redraw = self.first_frame || total != self.last_total || now_ms
            >= self.next_forced_redraw_ms;
        if redraw {
            self.next_forced_redraw_ms = now_ms + 5000;
        }
        self.last_total = total;
        self.first_frame = false;
        redraw
    }
}

/// Whether the unconditional final frame after end of input shows anything:
/// a run that never received a line renders nothing.
pub fn should_render_final(total: usize) -> (r: bool)
    ensures
        r == (total > 0),
{
    total > 0
}

} // verus!
