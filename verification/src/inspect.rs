//! Describing a tile store.
use crate::text::{
    decimal, decimal_text, has_part, joined, lemma_has_part, lemma_is_suffix,
    lemma_padding_is_on_the_left, pad_left, padded, texts,
};
use vstd::prelude::*;

verus! {

/// A quotient rounded to the nearest whole number, and to the even one of two
/// that are equally near.
pub open spec fn rounded(n: nat, d: nat) -> nat {
    let q = n / d;
    let r = n % d;
    if 2 * r < d || (2 * r == d && q % 2 == 0) {
        q
    } else {
        q + 1
    }
}

/// The distance between neighbouring doubles around a whole number: those below
/// 2^53 are all doubles, and each power of two above doubles the distance.
pub open spec fn double_spacing(n: nat) -> nat
    decreases n,
{
    if n < 0x20_0000_0000_0000 {
        1
    } else {
        2 * double_spacing(n / 2)
    }
}

/// A whole number as the nearest double.
pub open spec fn nearest_double(n: nat) -> nat {
    rounded(n, double_spacing(n)) * double_spacing(n)
}

/// A number of tenths, with one decimal.
pub open spec fn tenths(t: nat) -> Seq<char> {
    decimal(t / 10) + "."@ + decimal(t % 10)
}

/// A number of hundredths, with two decimals.
pub open spec fn hundredths(h: nat) -> Seq<char> {
    decimal(h / 100) + "."@ + decimal(h % 100 / 10) + decimal(h % 10)
}

/// A size in the largest unit that it reaches.
pub open spec fn size_text(bytes: nat) -> Seq<char> {
    if bytes < 1024 {
        decimal(bytes) + " B"@
    } else if bytes < 1024 * 1024 {
        tenths(rounded(10 * bytes, 1024)) + " KB"@
    } else if bytes < 1024 * 1024 * 1024 {
        tenths(rounded(10 * bytes, 1024 * 1024)) + " MB"@
    } else {
        hundredths(rounded(100 * nearest_double(bytes), 1024 * 1024 * 1024)) + " GB"@
    }
}

fn round_div(n: u128, d: u128) -> (q: u128)
    requires
        0 < d <= 0x4000_0000,
        n < 0x1000_0000_0000_0000_0000_0000,
    ensures
        q == rounded(n as nat, d as nat),
        q <= n / d + 1,
{
    let q: u128 = n / d;
    let r: u128 = n % d;
    if 2 * r < d || (2 * r == d && q % 2 == 0) {
        q
    } else {
        q + 1
    }
}

proof fn lemma_spacing(n: nat, k: nat, s: nat)
    requires
        s == vstd::arithmetic::power2::pow2(k),
        n / s < 0x20_0000_0000_0000,
        k > 0 ==> n / (s / 2) >= 0x20_0000_0000_0000,
    ensures
        double_spacing(n) == s,
    decreases k,
{
    vstd::arithmetic::power2::lemma_pow2_pos(k);
    if k == 0 {
        vstd::arithmetic::power2::lemma2_to64();
        assert(n / 1 == n);
    } else {
        let j = (k - 1) as nat;
        let h = vstd::arithmetic::power2::pow2(j);
        vstd::arithmetic::power2::lemma_pow2_pos(j);
        vstd::arithmetic::power2::lemma_pow2_unfold(k);
        assert(s == 2 * h && s / 2 == h);
        assert(n >= 0x20_0000_0000_0000) by {
            vstd::arithmetic::div_mod::lemma_div_is_ordered_by_denominator(n as int, 1, h as int);
        }
        vstd::arithmetic::div_mod::lemma_div_denominator(n as int, 2, h as int);
        assert((n / 2) / h == n / s);
        if j > 0 {
            let g = vstd::arithmetic::power2::pow2((j - 1) as nat);
            vstd::arithmetic::power2::lemma_pow2_pos((j - 1) as nat);
            vstd::arithmetic::power2::lemma_pow2_unfold(j);
            assert(h == 2 * g && h / 2 == g);
            vstd::arithmetic::div_mod::lemma_div_denominator(n as int, 2, g as int);
            assert((n / 2) / g == n / h);
        }
        lemma_spacing(n / 2, j, h);
    }
}

fn as_double(n: u64) -> (d: u128)
    ensures
        d == nearest_double(n as nat),
        d <= 0x1_0000_0000_0000_0000,
{
    let mut s: u128 = 1;
    let ghost mut k: nat = 0;
    proof {
        vstd::arithmetic::power2::lemma2_to64();
        assert(n as int / 1 == n);
    }
    while n as u128 / s >= 0x20_0000_0000_0000
        invariant
            1 <= s <= 0x800,
            k <= 11,
            s == vstd::arithmetic::power2::pow2(k),
            k > 0 ==> n as nat / (s as nat / 2) >= 0x20_0000_0000_0000,
        decreases 12 - k,
    {
        proof {
            vstd::arithmetic::power2::lemma2_to64();
            vstd::arithmetic::power2::lemma_pow2_unfold(k + 1);
            if k == 11 {
                assert(n as u128 / 0x800 < 0x20_0000_0000_0000);
            }
            if k < 11 {
                vstd::arithmetic::power2::lemma_pow2_strictly_increases(k, 11);
                if k < 10 {
                    vstd::arithmetic::power2::lemma_pow2_strictly_increases(k + 1, 11);
                }
            }
        }
        s = 2 * s;
        proof {
            k = k + 1;
        }
    }
    proof {
        lemma_spacing(n as nat, k, s as nat);
    }
    let q: u128 = round_div(n as u128, s);
    proof {
        let m = n as int / s as int;
        assert(q <= m + 1);
        assert(m < 0x20_0000_0000_0000);
        assert(q * s <= 0x20_0000_0000_0000 * 0x800) by (nonlinear_arith)
            requires
                0 <= q <= 0x20_0000_0000_0000,
                0 < s <= 0x800,
        ;
        assert(0x20_0000_0000_0000 * 0x800 == 0x1_0000_0000_0000_0000);
    }
    q * s
}

fn tenths_text(t: u128, unit: &str) -> (text: String)
    requires
        t <= u64::MAX,
    ensures
        text@ == tenths(t as nat) + unit@,
{
    let mut text: String = decimal_text((t / 10) as u64);
    text.append(".");
    text.append(decimal_text((t % 10) as u64).as_str());
    text.append(unit);
    text
}

/// A size in the largest unit that it reaches: whole bytes, kilobytes and
/// megabytes with one decimal, gigabytes with two.
pub fn format_bytes(bytes: u64) -> (text: String)
    ensures
        text@ == size_text(bytes as nat),
{
    let b: u128 = bytes as u128;
    if bytes < 1024 {
        joined(decimal_text(bytes).as_str(), " B")
    } else if bytes < 1024 * 1024 {
        tenths_text(round_div(10 * b, 1024), " KB")
    } else if bytes < 1024 * 1024 * 1024 {
        tenths_text(round_div(10 * b, 1024 * 1024), " MB")
    } else {
        let h: u128 = round_div(100 * as_double(bytes), 1024 * 1024 * 1024);
        let mut text: String = decimal_text((h / 100) as u64);
        text.append(".");
        text.append(decimal_text((h % 100 / 10) as u64).as_str());
        text.append(decimal_text((h % 10) as u64).as_str());
        text.append(" GB");
        text
    }
}

/// What a tile store holds.
#[derive(Debug)]
pub struct StoreSummary {
    pub metadata: Vec<(String, String)>,
    pub total_tiles: u64,
    pub total_size: u64,
    pub average_size: u64,
    /// Zoom levels and how many tiles each has.
    pub by_zoom: Vec<(u8, u64)>,
    /// The file's size, where it could be found out.
    pub file_size: Option<u64>,
}

/// The lines for metadata.
pub open spec fn metadata_lines(metadata: Seq<(String, String)>) -> Seq<Seq<char>>
    decreases metadata.len(),
{
    if metadata.len() == 0 {
        Seq::empty()
    } else {
        metadata_lines(metadata.drop_last()).push(
            "  "@ + metadata.last().0@ + ": "@ + metadata.last().1@,
        )
    }
}

/// A row of the table of zoom levels.
pub open spec fn zoom_row(zoom: Seq<char>, tiles: Seq<char>) -> Seq<char> {
    "  "@ + padded(zoom, 5) + "  "@ + padded(tiles, 10)
}

/// The rows for zoom levels.
pub open spec fn zoom_rows(by_zoom: Seq<(u8, u64)>) -> Seq<Seq<char>>
    decreases by_zoom.len(),
{
    if by_zoom.len() == 0 {
        Seq::empty()
    } else {
        zoom_rows(by_zoom.drop_last()).push(
            zoom_row(decimal(by_zoom.last().0 as nat), decimal(by_zoom.last().1 as nat)),
        )
    }
}

/// The report on a tile store.
pub open spec fn report_lines(path: Seq<char>, s: StoreSummary) -> Seq<Seq<char>> {
    seq!["MBTiles: "@ + path, Seq::empty()] + (if s.metadata@.len() == 0 {
        seq!["Metadata: (none)"@]
    } else {
        seq!["Metadata:"@] + metadata_lines(s.metadata@)
    }) + seq![Seq::empty(), "Total tiles: "@ + decimal(s.total_tiles as nat)] + (
    if s.total_tiles > 0 {
        seq![
            "Total tile data: "@ + size_text(s.total_size as nat),
            "Average tile size: "@ + size_text(s.average_size as nat),
            Seq::empty(),
            "Tiles by zoom level:"@,
            zoom_row("Zoom"@, "Tiles"@),
            zoom_row("-----"@, "----------"@),
        ] + zoom_rows(s.by_zoom@)
    } else {
        Seq::empty()
    }) + (match s.file_size {
        Some(size) => seq![Seq::empty(), "File size on disk: "@ + size_text(size as nat)],
        None => Seq::empty(),
    })
}

fn row_text(zoom: &str, tiles: &str) -> (text: String)
    ensures
        text@ == zoom_row(zoom@, tiles@),
{
    let mut text: String = joined("  ", pad_left(zoom, 5).as_str());
    text.append("  ");
    text.append(pad_left(tiles, 10).as_str());
    text
}

fn push_metadata(lines: &mut Vec<String>, metadata: &Vec<(String, String)>)
    ensures
        texts(final(lines)@) == texts(old(lines)@) + metadata_lines(metadata@),
{
    let ghost before = texts(lines@);
    assert(metadata@.take(0) =~= Seq::<(String, String)>::empty());
    assert(before + metadata_lines(metadata@.take(0)) =~= before);
    for i in 0..metadata.len()
        invariant
            texts(lines@) == before + metadata_lines(metadata@.take(i as int)),
    {
        let ghost held = lines@;
        assert(metadata@.take(i + 1).last() == metadata@[i as int]);
        assert(metadata@.take(i + 1).drop_last() =~= metadata@.take(i as int));
        let mut line: String = joined("  ", metadata[i].0.as_str());
        line.append(": ");
        line.append(metadata[i].1.as_str());
        let ghost text = line@;
        lines.push(line);
        assert(texts(lines@) =~= texts(held).push(text));
        assert(texts(lines@) =~= before + metadata_lines(metadata@.take(i as int + 1)));
    }
    assert(metadata@.take(metadata@.len() as int) =~= metadata@);
}

fn push_zooms(lines: &mut Vec<String>, by_zoom: &Vec<(u8, u64)>)
    ensures
        texts(final(lines)@) == texts(old(lines)@) + zoom_rows(by_zoom@),
{
    let ghost before = texts(lines@);
    assert(by_zoom@.take(0) =~= Seq::<(u8, u64)>::empty());
    assert(before + zoom_rows(by_zoom@.take(0)) =~= before);
    for i in 0..by_zoom.len()
        invariant
            texts(lines@) == before + zoom_rows(by_zoom@.take(i as int)),
    {
        let ghost held = lines@;
        assert(by_zoom@.take(i + 1).last() == by_zoom@[i as int]);
        assert(by_zoom@.take(i + 1).drop_last() =~= by_zoom@.take(i as int));
        let line: String = row_text(
            decimal_text(by_zoom[i].0 as u64).as_str(),
            decimal_text(by_zoom[i].1).as_str(),
        );
        let ghost text = line@;
        lines.push(line);
        assert(texts(lines@) =~= texts(held).push(text));
        assert(texts(lines@) =~= before + zoom_rows(by_zoom@.take(i as int + 1)));
    }
    assert(by_zoom@.take(by_zoom@.len() as int) =~= by_zoom@);
}

/// The report on a tile store, line by line.
pub fn inspect_report(path: &str, summary: &StoreSummary) -> (lines: Vec<String>)
    ensures
        texts(lines@) == report_lines(path@, *summary),
{
    let mut lines: Vec<String> = Vec::new();
    lines.push(joined("MBTiles: ", path));
    lines.push(String::new());
    let ghost head = seq!["MBTiles: "@ + path@, Seq::<char>::empty()];
    assert(texts(lines@) =~= head);
    if summary.metadata.len() == 0 {
        lines.push("Metadata: (none)".to_owned());
        assert(texts(lines@) =~= head + seq!["Metadata: (none)"@]);
    } else {
        lines.push("Metadata:".to_owned());
        assert(texts(lines@) =~= head + seq!["Metadata:"@]);
        push_metadata(&mut lines, &summary.metadata);
        assert(texts(lines@) =~= head + (seq!["Metadata:"@] + metadata_lines(summary.metadata@)));
    }
    let ghost with_metadata = texts(lines@);
    lines.push(String::new());
    lines.push(joined("Total tiles: ", decimal_text(summary.total_tiles).as_str()));
    let ghost counted = with_metadata + seq![
        Seq::<char>::empty(),
        "Total tiles: "@ + decimal(summary.total_tiles as nat),
    ];
    assert(texts(lines@) =~= counted);
    if summary.total_tiles > 0 {
        lines.push(joined("Total tile data: ", format_bytes(summary.total_size).as_str()));
        lines.push(joined("Average tile size: ", format_bytes(summary.average_size).as_str()));
        lines.push(String::new());
        lines.push("Tiles by zoom level:".to_owned());
        lines.push(row_text("Zoom", "Tiles"));
        lines.push(row_text("-----", "----------"));
        let ghost table = seq![
            "Total tile data: "@ + size_text(summary.total_size as nat),
            "Average tile size: "@ + size_text(summary.average_size as nat),
            Seq::<char>::empty(),
            "Tiles by zoom level:"@,
            zoom_row("Zoom"@, "Tiles"@),
            zoom_row("-----"@, "----------"@),
        ];
        assert(texts(lines@) =~= counted + table);
        push_zooms(&mut lines, &summary.by_zoom);
        assert(texts(lines@) =~= counted + (table + zoom_rows(summary.by_zoom@)));
    } else {
        assert(counted + Seq::<Seq<char>>::empty() =~= counted);
    }
    let ghost before_size = texts(lines@);
    match summary.file_size {
        Some(size) => {
            lines.push(String::new());
            lines.push(joined("File size on disk: ", format_bytes(size).as_str()));
            assert(texts(lines@) =~= before_size + seq![
                Seq::<char>::empty(),
                "File size on disk: "@ + size_text(size as nat),
            ]);
        },
        None => {
            assert(before_size + Seq::<Seq<char>>::empty() =~= before_size);
        },
    }
    lines
}

/// A rounded quotient is one of the nearest, and an even one where two are as near.
pub proof fn lemma_rounded_is_nearest(n: nat, d: nat)
    requires
        d > 0,
    ensures
        2 * n <= 2 * (rounded(n, d) * d) + d,
        2 * (rounded(n, d) * d) <= 2 * n + d,
        2 * n == 2 * (rounded(n, d) * d) + d || 2 * (rounded(n, d) * d) == 2 * n + d ==> rounded(
            n,
            d,
        ) % 2 == 0,
{
    let q = n / d;
    let r = n % d;
    vstd::arithmetic::div_mod::lemma_fundamental_div_mod(n as int, d as int);
    assert(q * d == d * q) by (nonlinear_arith);
    assert((q + 1) * d == q * d + d) by (nonlinear_arith);
    vstd::arithmetic::div_mod::lemma_mod_bound(n as int, d as int);
}

/// The doubles around a whole number lie as far apart as 53 significant bits leave
/// room for, and the nearest one is at most half of that away.
pub proof fn lemma_doubles_have_53_bits(n: nat)
    ensures
        n < 0x20_0000_0000_0000 ==> nearest_double(n) == n,
        n >= 0x20_0000_0000_0000 ==> double_spacing(n) * 0x10_0000_0000_0000 <= n
            < double_spacing(n) * 0x20_0000_0000_0000,
        2 * n <= 2 * nearest_double(n) + double_spacing(n),
        2 * nearest_double(n) <= 2 * n + double_spacing(n),
{
    lemma_double_spacing(n);
    lemma_rounded_is_nearest(n, double_spacing(n));
    if n < 0x20_0000_0000_0000 {
        assert(rounded(n, 1) == n);
        assert(n * 1 == n) by (nonlinear_arith);
    }
}

proof fn lemma_double_spacing(n: nat)
    ensures
        double_spacing(n) > 0,
        n >= 0x20_0000_0000_0000 ==> double_spacing(n) * 0x10_0000_0000_0000 <= n
            < double_spacing(n) * 0x20_0000_0000_0000,
    decreases n,
{
    if n >= 0x20_0000_0000_0000 {
        lemma_double_spacing(n / 2);
    }
}

/// A text gives a number of units with `decimals` digits behind the point: it is
/// the scaled number `scaled`, in which the point stands before those digits.
pub open spec fn gives(text: Seq<char>, scaled: nat, decimals: nat, unit: Seq<char>) -> bool {
    if decimals == 1 {
        text == decimal(scaled / 10) + "."@ + decimal(scaled % 10) + unit
    } else {
        text == decimal(scaled / 100) + "."@ + decimal(scaled / 10 % 10) + decimal(scaled % 10)
            + unit
    }
}

/// Below a kilobyte a size is given to the byte. Kilobytes and megabytes are
/// given to the nearest tenth, and gigabytes to the nearest hundredth.
pub proof fn lemma_sizes_are_given_to_the_nearest(bytes: nat)
    requires
        bytes < 0x20_0000_0000_0000,
    ensures
        bytes < 0x400 ==> size_text(bytes) == decimal(bytes) + " B"@,
        0x400 <= bytes < 0x10_0000 ==> exists|t: nat| #[trigger]
            gives(size_text(bytes), t, 1, " KB"@) && 2 * (t * 0x400) <= 20 * bytes + 0x400 && 20
                * bytes <= 2 * (t * 0x400) + 0x400,
        0x10_0000 <= bytes < 0x4000_0000 ==> exists|t: nat| #[trigger]
            gives(size_text(bytes), t, 1, " MB"@) && 2 * (t * 0x10_0000) <= 20 * bytes + 0x10_0000
                && 20 * bytes <= 2 * (t * 0x10_0000) + 0x10_0000,
        0x4000_0000 <= bytes ==> exists|t: nat| #[trigger]
            gives(size_text(bytes), t, 2, " GB"@) && 2 * (t * 0x4000_0000) <= 200 * bytes
                + 0x4000_0000 && 200 * bytes <= 2 * (t * 0x4000_0000) + 0x4000_0000,
{
    lemma_doubles_have_53_bits(bytes);
    if 0x400 <= bytes < 0x10_0000 {
        lemma_rounded_is_nearest(10 * bytes, 0x400);
        assert(gives(size_text(bytes), rounded(10 * bytes, 0x400), 1, " KB"@));
    } else if 0x10_0000 <= bytes < 0x4000_0000 {
        lemma_rounded_is_nearest(10 * bytes, 0x10_0000);
        assert(gives(size_text(bytes), rounded(10 * bytes, 0x10_0000), 1, " MB"@));
    } else if 0x4000_0000 <= bytes {
        let t = rounded(100 * bytes, 0x4000_0000);
        lemma_rounded_is_nearest(100 * bytes, 0x4000_0000);
        assert(t % 100 / 10 == t / 10 % 10);
        assert(gives(size_text(bytes), t, 2, " GB"@));
    }
}

/// Each entry of the metadata has its line, in order, with its name and value.
pub proof fn lemma_all_metadata_are_listed(metadata: Seq<(String, String)>, i: int)
    requires
        0 <= i < metadata.len(),
    ensures
        metadata_lines(metadata).len() == metadata.len(),
        has_part(metadata_lines(metadata)[i], metadata[i].0@),
        metadata[i].1@.is_suffix_of(metadata_lines(metadata)[i]),
        metadata_lines(metadata)[i].len() == metadata[i].0@.len() + metadata[i].1@.len() + 4,
    decreases metadata.len(),
{
    lemma_metadata_count(metadata);
    if i < metadata.len() - 1 {
        lemma_all_metadata_are_listed(metadata.drop_last(), i);
    } else {
        reveal_strlit("  ");
        reveal_strlit(": ");
        let (name, value) = (metadata[i].0@, metadata[i].1@);
        let line = metadata_lines(metadata)[i];
        lemma_has_part("  "@, name, ": "@ + value);
        assert("  "@ + name + (": "@ + value) =~= line);
        assert(value =~= line.subrange(line.len() - value.len(), line.len() as int));
    }
}

proof fn lemma_metadata_count(metadata: Seq<(String, String)>)
    ensures
        metadata_lines(metadata).len() == metadata.len(),
    decreases metadata.len(),
{
    if metadata.len() > 0 {
        lemma_metadata_count(metadata.drop_last());
    }
}

/// A row's two columns stand at fixed places, each flush to the right.
pub proof fn lemma_zoom_row_has_two_columns(zoom: Seq<char>, tiles: Seq<char>)
    requires
        zoom.len() <= 5,
        tiles.len() <= 10,
    ensures
        zoom_row(zoom, tiles).len() == 19,
        zoom_row(zoom, tiles).subrange(7 - zoom.len(), 7) == zoom,
        zoom_row(zoom, tiles).subrange(19 - tiles.len(), 19) == tiles,
{
    reveal_strlit("  ");
    lemma_padding_is_on_the_left(zoom, 5);
    lemma_padding_is_on_the_left(tiles, 10);
    let row = zoom_row(zoom, tiles);
    assert(row.subrange(7 - zoom.len(), 7) =~= zoom);
    assert(row.subrange(19 - tiles.len(), 19) =~= tiles);
}

/// Each zoom level has its row, in order.
pub proof fn lemma_all_zooms_have_rows(by_zoom: Seq<(u8, u64)>)
    ensures
        zoom_rows(by_zoom).len() == by_zoom.len(),
        forall|i: int|
            0 <= i < by_zoom.len() ==> zoom_rows(by_zoom)[i] == zoom_row(
                decimal((#[trigger] by_zoom[i]).0 as nat),
                decimal(by_zoom[i].1 as nat),
            ),
    decreases by_zoom.len(),
{
    if by_zoom.len() > 0 {
        let front = by_zoom.drop_last();
        lemma_all_zooms_have_rows(front);
        assert forall|i: int| 0 <= i < by_zoom.len() implies zoom_rows(by_zoom)[i] == zoom_row(
            decimal((#[trigger] by_zoom[i]).0 as nat),
            decimal(by_zoom[i].1 as nat),
        ) by {
            if i < front.len() {
                assert(front[i] == by_zoom[i]);
            }
        }
    }
}

/// A report names the store, lists its metadata behind the second line, and
/// counts its tiles. Only of a store that has tiles it gives sizes and the table of
/// zoom levels, which has a row for each. The size of the file comes last where it
/// is known.
pub proof fn lemma_report_says_everything(path: Seq<char>, s: StoreSummary)
    ensures
        ({
            let lines = report_lines(path, s);
            let m = s.metadata@.len() as int;
            let entries = if m == 0 {
                1
            } else {
                m + 1
            };
            let table = s.by_zoom@.len() as int;
            &&& path.is_suffix_of(lines[0])
            &&& lines.len() == 4 + entries + (if s.total_tiles > 0 {
                6 + table
            } else {
                0
            }) + (if s.file_size is Some {
                2int
            } else {
                0
            })
            &&& m > 0 ==> lines.subrange(3, 3 + m) == metadata_lines(s.metadata@)
            &&& decimal(s.total_tiles as nat).is_suffix_of(lines[3 + entries])
            &&& s.total_tiles > 0 ==> {
                &&& size_text(s.total_size as nat).is_suffix_of(lines[4 + entries])
                &&& size_text(s.average_size as nat).is_suffix_of(lines[5 + entries])
                &&& lines.subrange(10 + entries, 10 + entries + table) == zoom_rows(s.by_zoom@)
            }
            &&& s.file_size is Some ==> size_text(s.file_size->0 as nat).is_suffix_of(lines.last())
        }),
{
    let lines = report_lines(path, s);
    lemma_metadata_count(s.metadata@);
    lemma_all_zooms_have_rows(s.by_zoom@);
    let m = s.metadata@.len() as int;
    let entries = if m == 0 {
        1
    } else {
        m + 1
    };
    let table = s.by_zoom@.len() as int;
    lemma_is_suffix("MBTiles: "@, path);
    lemma_is_suffix("Total tiles: "@, decimal(s.total_tiles as nat));
    lemma_is_suffix("Total tile data: "@, size_text(s.total_size as nat));
    lemma_is_suffix("Average tile size: "@, size_text(s.average_size as nat));
    if m > 0 {
        assert(lines.subrange(3, 3 + m) =~= metadata_lines(s.metadata@));
    }
    if s.total_tiles > 0 {
        assert(lines.subrange(10 + entries, 10 + entries + table) =~= zoom_rows(s.by_zoom@));
    }
    if s.file_size is Some {
        lemma_is_suffix("File size on disk: "@, size_text(s.file_size->0 as nat));
    }
}

} // verus!
