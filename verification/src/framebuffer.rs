//! A framebuffer device as sysfs describes it: its depth in bits per pixel
//! (the `bits_per_pixel` file) and its virtual size (the `virtual_size` file,
//! `width,height`).
use vstd::prelude::*;
use vstd::string::{StrSliceExecFns, StringExecFns};

verus! {

/// Why the sysfs description of a framebuffer could not be read.
#[derive(Debug, Clone, Copy, PartialEq, Eq, Structural)]
pub enum SysfsError {
    /// `bits_per_pixel` is not a number from 0 to 255.
    BitsPerPixel,
    /// `virtual_size` holds no comma.
    MissingComma,
    /// The width in `virtual_size` is not a number from 0 to 65535.
    Width,
    /// The height in `virtual_size` is not a number from 0 to 65535.
    Height,
}

/// A framebuffer device: its name, its size in pixels and its depth in bits.
pub struct Framebuffer {
    device: String,
    width: u16,
    height: u16,
    depth: u8,
}

/// What a `Framebuffer` holds.
pub ghost struct FramebufferView {
    pub device: Seq<char>,
    pub width: u16,
    pub height: u16,
    pub depth: u8,
}

impl View for Framebuffer {
    type V = FramebufferView;

    closed spec fn view(&self) -> FramebufferView {
        FramebufferView {
            device: self.device@,
            width: self.width,
            height: self.height,
            depth: self.depth,
        }
    }
}

/// Whether `c` has the Unicode `White_Space` property, as `char::is_whitespace` tests.
pub open spec fn is_white_space(c: char) -> bool {
    let v = c as u32;
    ||| 9 <= v <= 13
    ||| v == 32
    ||| v == 0x85
    ||| v == 0xa0
    ||| v == 0x1680
    ||| 0x2000 <= v <= 0x200a
    ||| v == 0x2028
    ||| v == 0x2029
    ||| v == 0x202f
    ||| v == 0x205f
    ||| v == 0x3000
}

/// `s` without its leading white space.
pub open spec fn trim_start(s: Seq<char>) -> Seq<char>
    decreases s.len(),
{
    if s.len() > 0 && is_white_space(s[0]) {
        trim_start(s.drop_first())
    } else {
        s
    }
}

/// `s` without its trailing white space.
pub open spec fn trim_end(s: Seq<char>) -> Seq<char>
    decreases s.len(),
{
    if s.len() > 0 && is_white_space(s.last()) {
        trim_end(s.drop_last())
    } else {
        s
    }
}

/// `s` without leading and trailing white space, as `str::trim` gives it.
pub open spec fn trimmed(s: Seq<char>) -> Seq<char> {
    trim_end(trim_start(s))
}

/// Whether `c` is an ASCII decimal digit.
pub open spec fn is_digit(c: char) -> bool {
    48 <= c as u32 <= 57
}

/// The value of the decimal digits `s`.
pub open spec fn digits_value(s: Seq<char>) -> nat
    decreases s.len(),
{
    if s.len() == 0 {
        0
    } else {
        digits_value(s.drop_last()) * 10 + ((s.last() as u32) - 48) as nat
    }
}

/// The digits of an unsigned number's text: without a leading `+`, if one
/// comes before something.
pub open spec fn unsigned_digits(s: Seq<char>) -> Seq<char> {
    if s.len() > 1 && s[0] == '+' {
        s.drop_first()
    } else {
        s
    }
}

/// What `str::parse` gives for an unsigned integer type whose largest value
/// is `max`: the value of an optional `+` followed by at least one decimal
/// digit, where that value is at most `max`.
pub open spec fn parse_unsigned(s: Seq<char>, max: nat) -> Option<nat> {
    let d = unsigned_digits(s);
    if d.len() > 0 && (forall|i: int| 0 <= i < d.len() ==> is_digit(#[trigger] d[i])) && digits_value(d)
        <= max {
        Some(digits_value(d))
    } else {
        None
    }
}

/// `k` is the position of the first comma in `s`.
pub open spec fn first_comma_at(s: Seq<char>, k: int) -> bool {
    &&& 0 <= k < s.len()
    &&& s[k] == ','
    &&& forall|j: int| 0 <= j < k ==> s[j] != ','
}

/// The depth, width and height that the contents of the `bits_per_pixel`
/// and `virtual_size` files describe: each file is trimmed, the size is split
/// at its first comma and both halves are trimmed again.
pub open spec fn sysfs_values(bits_per_pixel: Seq<char>, virtual_size: Seq<char>) -> Result<
    (u8, u16, u16),
    SysfsError,
> {
    match parse_unsigned(trimmed(bits_per_pixel), 255) {
        None => Err(SysfsError::BitsPerPixel),
        Some(d) => {
            let t = trimmed(virtual_size);
            if !t.contains(',') {
                Err(SysfsError::MissingComma)
            } else {
                let k = choose|k: int| first_comma_at(t, k);
                match parse_unsigned(trimmed(t.subrange(0, k)), 65535) {
                    None => Err(SysfsError::Width),
                    Some(w) => match parse_unsigned(trimmed(t.subrange(k + 1, t.len() as int)), 65535) {
                        None => Err(SysfsError::Height),
                        Some(h) => Ok((d as u8, w as u16, h as u16)),
                    },
                }
            }
        },
    }
}

proof fn lemma_trim_start_shape(s: Seq<char>) -> (a: int)
    ensures
        0 <= a <= s.len(),
        trim_start(s) == s.subrange(a, s.len() as int),
        forall|k: int| 0 <= k < a ==> is_white_space(#[trigger] s[k]),
        a < s.len() ==> !is_white_space(s[a]),
    decreases s.len(),
{
    if s.len() > 0 && is_white_space(s[0]) {
        let a1 = lemma_trim_start_shape(s.drop_first());
        assert(s.drop_first().subrange(a1, s.len() - 1) =~= s.subrange(a1 + 1, s.len() as int));
        assert forall|k: int| 0 <= k < a1 + 1 implies is_white_space(#[trigger] s[k]) by {
            if k > 0 {
                assert(s[k] == s.drop_first()[k - 1]);
            }
        }
        a1 + 1
    } else {
        assert(s.subrange(0, s.len() as int) =~= s);
        0
    }
}

proof fn lemma_trim_end_shape(s: Seq<char>) -> (b: int)
    ensures
        0 <= b <= s.len(),
        trim_end(s) == s.subrange(0, b),
        forall|k: int| b <= k < s.len() ==> is_white_space(#[trigger] s[k]),
        b > 0 ==> !is_white_space(s[b - 1]),
    decreases s.len(),
{
    if s.len() > 0 && is_white_space(s.last()) {
        let b1 = lemma_trim_end_shape(s.drop_last());
        assert(s.drop_last().subrange(0, b1) =~= s.subrange(0, b1));
        assert forall|k: int| b1 <= k < s.len() implies is_white_space(#[trigger] s[k]) by {
            if k < s.len() - 1 {
                assert(s[k] == s.drop_last()[k]);
            }
        }
        b1
    } else {
        assert(s.subrange(0, s.len() as int) =~= s);
        s.len() as int
    }
}

/// Trimming removes white space at both ends and nothing else: the result is
/// the part of `s` from `a` to `b`, everything before `a` and from `b` on is
/// white space, and the result neither starts nor ends with white space.
pub proof fn lemma_trimmed_is_inner_part(s: Seq<char>) -> (r: (int, int))
    ensures
        0 <= r.0 <= r.1 <= s.len(),
        trimmed(s) == s.subrange(r.0, r.1),
        forall|k: int| 0 <= k < r.0 ==> is_white_space(#[trigger] s[k]),
        forall|k: int| r.1 <= k < s.len() ==> is_white_space(#[trigger] s[k]),
        r.0 < r.1 ==> !is_white_space(s[r.0]) && !is_white_space(s[r.1 - 1]),
{
    let a = lemma_trim_start_shape(s);
    let t = s.subrange(a, s.len() as int);
    let b = lemma_trim_end_shape(t);
    assert(t.subrange(0, b) =~= s.subrange(a, a + b));
    assert forall|k: int| a + b <= k < s.len() implies is_white_space(#[trigger] s[k]) by {
        assert(s[k] == t[k - a]);
    }
    if b > 0 {
        assert(s[a] == t[0]);
        assert(s[a + b - 1] == t[b - 1]);
    }
    (a, a + b)
}

fn is_white_space_char(c: char) -> (b: bool)
    ensures
        b == is_white_space(c),
{
    let v = c as u32;
    (9 <= v && v <= 13) || v == 32 || v == 0x85 || v == 0xa0 || v == 0x1680 || (0x2000 <= v && v
        <= 0x200a) || v == 0x2028 || v == 0x2029 || v == 0x202f || v == 0x205f || v == 0x3000
}

/// `s` without leading and trailing white space.
pub fn trim_text(s: &str) -> (t: &str)
    ensures
        t@ == trimmed(s@),
{
    let n = s.unicode_len();
    let mut i: usize = 0;
    assert(s@.subrange(0, n as int) =~= s@);
    while i < n && is_white_space_char(s.get_char(i))
        invariant
            n == s@.len(),
            i <= n,
            trim_start(s@) == trim_start(s@.subrange(i as int, n as int)),
        decreases n - i,
    {
        assert(s@.subrange(i as int, n as int).drop_first() =~= s@.subrange(i + 1, n as int));
        i += 1;
    }
    assert(trim_start(s@) == s@.subrange(i as int, n as int));
    let mut j: usize = n;
    while j > i && is_white_space_char(s.get_char(j - 1))
        invariant
            n == s@.len(),
            i <= j <= n,
            trim_start(s@) == s@.subrange(i as int, n as int),
            trimmed(s@) == trim_end(s@.subrange(i as int, j as int)),
        decreases j - i,
    {
        assert(s@.subrange(i as int, j as int).drop_last() =~= s@.subrange(i as int, j - 1));
        j -= 1;
    }
    assert(trim_end(s@.subrange(i as int, j as int)) == s@.subrange(i as int, j as int));
    s.substring_char(i, j)
}

/// What `str::parse` gives for `text` and an unsigned type whose largest
/// value is `max`.
pub fn parse_decimal(text: &str, max: u32) -> (r: Option<u32>)
    requires
        max <= 65535,
    ensures
        match r {
            Some(v) => parse_unsigned(text@, max as nat) == Some(v as nat),
            None => parse_unsigned(text@, max as nat) is None,
        },
{
    let n = text.unicode_len();
    let ghost d = unsigned_digits(text@);
    let mut start: usize = 0;
    if n > 1 && text.get_char(0) == '+' {
        start = 1;
    }
    assert(d =~= text@.subrange(start as int, n as int));
    if start == n {
        return None;
    }
    let mut value: u32 = 0;
    let mut i: usize = start;
    assert(d.subrange(0, 0) =~= Seq::<char>::empty());
    while i < n
        invariant
            n == text@.len(),
            start <= i <= n,
            max <= 65535,
            d == text@.subrange(start as int, n as int),
            d == unsigned_digits(text@),
            forall|k: int| 0 <= k < i - start ==> is_digit(#[trigger] d[k]),
            value as int == if digits_value(d.subrange(0, i - start)) <= max {
                digits_value(d.subrange(0, i - start)) as int
            } else {
                max + 1
            },
        decreases n - i,
    {
        let c = text.get_char(i);
        let v = c as u32;
        assert(c == d[i - start]);
        if v < 48 || v > 57 {
            assert(!is_digit(d[i - start]));
            assert(!(forall|k: int| 0 <= k < d.len() ==> is_digit(#[trigger] d[k])));
            return None;
        }
        let ghost prefix = d.subrange(0, i - start);
        let ghost longer = d.subrange(0, i - start + 1);
        assert(longer.drop_last() =~= prefix);
        assert(longer.last() == c);
        let next = value * 10 + (v - 48);
        value = if next > max {
            max + 1
        } else {
            next
        };
        i += 1;
    }
    assert(d.subrange(0, n - start) =~= d);
    if value > max {
        None
    } else {
        Some(value)
    }
}

fn copy_text(s: &str) -> (out: String)
    ensures
        out@ == s@,
{
    let mut out = String::new();
    out.append(s);
    assert(out@ =~= s@);
    out
}

impl Framebuffer {
    /// The framebuffer `dev` as its sysfs files describe it: `bits_per_pixel`
    /// holds the contents of `/sys/class/graphics/<dev>/bits_per_pixel` and
    /// `virtual_size` those of `/sys/class/graphics/<dev>/virtual_size`.
    pub fn from_sysfs(dev: &str, bits_per_pixel: &str, virtual_size: &str) -> (res: Result<
        Framebuffer,
        SysfsError,
    >)
        ensures
            match res {
                Ok(fb) => sysfs_values(bits_per_pixel@, virtual_size@) == Ok::<
                    (u8, u16, u16),
                    SysfsError,
                >((fb@.depth, fb@.width, fb@.height)) && fb@.device == dev@,
                Err(e) => sysfs_values(bits_per_pixel@, virtual_size@) == Err::<
                    (u8, u16, u16),
                    SysfsError,
                >(e),
            },
    {
        let depth = match parse_decimal(trim_text(bits_per_pixel), 255) {
            Some(d) => d as u8,
            None => return Err(SysfsError::BitsPerPixel),
        };
        let t = trim_text(virtual_size);
        let n = t.unicode_len();
        let mut k: usize = 0;
        while k < n && t.get_char(k) != ','
            invariant
                n == t@.len(),
                k <= n,
                forall|j: int| 0 <= j < k ==> t@[j] != ',',
            decreases n - k,
        {
            k += 1;
        }
        if k == n {
            assert(!t@.contains(','));
            return Err(SysfsError::MissingComma);
        }
        proof {
            assert(first_comma_at(t@, k as int));
            let c = choose|c: int| first_comma_at(t@, c);
            assert(c == k as int) by {
                if c < k {
                    assert(t@[c] != ',');
                } else if c > k {
                    assert(t@[k as int] != ',');
                }
            }
        }
        let width = match parse_decimal(trim_text(t.substring_char(0, k)), 65535) {
            Some(w) => w as u16,
            None => return Err(SysfsError::Width),
        };
        let height = match parse_decimal(trim_text(t.substring_char(k + 1, n)), 65535) {
            Some(h) => h as u16,
            None => return Err(SysfsError::Height),
        };
        Ok(Framebuffer { device: copy_text(dev), width, height, depth })
    }

    pub fn get_width(&self) -> (w: u16)
        ensures
            w == self@.width,
    {
        self.width
    }

    pub fn get_height(&self) -> (h: u16)
        ensures
            h == self@.height,
    {
        self.height
    }

    pub fn get_depth(&self) -> (d: u8)
        ensures
            d == self@.depth,
    {
        self.depth
    }

    /// The size in bytes of one frame, `width * height * (depth / 8)`,
    /// computed in `u16`.
    pub fn get_mem_size(&self) -> (size: usize)
        requires
            self@.width * self@.height <= u16::MAX,
            self@.width * self@.height * (self@.depth / 8) <= u16::MAX,
        ensures
            size == self@.width * self@.height * (self@.depth / 8),
    {
        (self.width * self.height * ((self.depth as u16) / 8)) as usize
    }

    /// The device file of the framebuffer: `/dev/` followed by its name.
    pub fn get_path(&self) -> (path: String)
        ensures
            path@ == "/dev/"@ + self@.device,
    {
        let mut path = String::new();
        path.append("/dev/");
        path.append(self.device.as_str());
        assert(path@ =~= "/dev/"@ + self@.device);
        path
    }
}

} // verus!
