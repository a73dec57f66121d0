use vstd::prelude::*;

use crate::error::Error;
use crate::pixel::GridView;
use crate::pixel::Pixel;
use crate::pixel::PixelGrid;

verus! {

/// The 8-byte magic at the start of every image blob: "MotoRun\0".
pub open spec fn blob_magic() -> Seq<u8> {
    seq![0x4Du8, 0x6Fu8, 0x74u8, 0x6Fu8, 0x52u8, 0x75u8, 0x6Eu8, 0x00u8]
}

/// Mathematical view of one run-length token.
#[verifier::ext_equal]
pub enum TokenView {
    Raw(Seq<Pixel>),
    Repeat(Pixel, int),
}

/// One run-length unit of the pixel stream: either a literal run of
/// pixels (Raw) or one pixel repeated `length` times (Repeat). An emitted
/// token's length is always in 1..=4095.
pub enum Token {
    Raw(Vec<Pixel>),
    Repeat(Pixel, u16),
}

impl View for Token {
    type V = TokenView;

    open spec fn view(&self) -> TokenView {
        match self {
            Token::Raw(px) => TokenView::Raw(px@),
            Token::Repeat(p, n) => TokenView::Repeat(*p, *n as int),
        }
    }
}

/// A token's length field is in the 12-bit range and never zero.
pub open spec fn token_wf(t: TokenView) -> bool {
    match t {
        TokenView::Raw(px) => 1 <= px.len() <= 4095,
        TokenView::Repeat(p, n) => 1 <= n <= 4095,
    }
}

/// How many pixels the token covers.
pub open spec fn token_len(t: TokenView) -> int {
    match t {
        TokenView::Raw(px) => px.len() as int,
        TokenView::Repeat(p, n) => n,
    }
}

/// The pixels the token stands for.
pub open spec fn token_pixels(t: TokenView) -> Seq<Pixel> {
    match t {
        TokenView::Raw(px) => px,
        TokenView::Repeat(p, n) => Seq::new(n as nat, |i: int| p),
    }
}

pub open spec fn tokens_wf(ts: Seq<TokenView>) -> bool {
    forall|k: int| 0 <= k < ts.len() ==> token_wf(#[trigger] ts[k])
}

pub open spec fn tokens_len(ts: Seq<TokenView>) -> int
    decreases ts.len(),
{
    if ts.len() == 0 {
        0
    } else {
        token_len(ts[0]) + tokens_len(ts.skip(1))
    }
}

pub open spec fn tokens_pixels(ts: Seq<TokenView>) -> Seq<Pixel>
    decreases ts.len(),
{
    if ts.len() == 0 {
        Seq::empty()
    } else {
        token_pixels(ts[0]) + tokens_pixels(ts.skip(1))
    }
}

/// One pixel on the wire: B, G, R byte order.
pub open spec fn pixel_bytes(p: Pixel) -> Seq<u8> {
    seq![p.b, p.g, p.r]
}

pub open spec fn pixels_bytes(px: Seq<Pixel>) -> Seq<u8>
    decreases px.len(),
{
    if px.len() == 0 {
        Seq::empty()
    } else {
        pixel_bytes(px[0]) + pixels_bytes(px.skip(1))
    }
}

/// The 2-byte token header: byte0 holds the mode in its top nibble and the
/// top 4 bits of the 12-bit length; byte1 holds the low 8 bits.
pub open spec fn token_header_bytes(mode: int, len: int) -> Seq<u8> {
    seq![(mode * 16 + len / 256) as u8, (len % 256) as u8]
}

pub open spec fn token_bytes(t: TokenView) -> Seq<u8> {
    match t {
        TokenView::Raw(px) => token_header_bytes(0, px.len() as int) + pixels_bytes(px),
        TokenView::Repeat(p, n) => token_header_bytes(8, n) + pixel_bytes(p),
    }
}

pub open spec fn tokens_bytes(ts: Seq<TokenView>) -> Seq<u8>
    decreases ts.len(),
{
    if ts.len() == 0 {
        Seq::empty()
    } else {
        token_bytes(ts[0]) + tokens_bytes(ts.skip(1))
    }
}

/// Length of the maximal run of equal pixels starting at index i.
pub open spec fn equal_run(s: Seq<Pixel>, i: int) -> int
    decreases s.len() - i,
{
    if i + 1 < s.len() && s[i + 1] == s[i] {
        1 + equal_run(s, i + 1)
    } else {
        1
    }
}

/// Length of the maximal run starting at index i in which every pixel
/// differs from its immediate predecessor.
pub open spec fn raw_run(s: Seq<Pixel>, i: int) -> int
    decreases s.len() - i,
{
    if i + 1 < s.len() && s[i + 1] != s[i] {
        1 + raw_run(s, i + 1)
    } else {
        1
    }
}

proof fn lemma_equal_run_bounds(s: Seq<Pixel>, i: int)
    requires
        0 <= i < s.len(),
    ensures
        1 <= equal_run(s, i) <= s.len() - i,
        forall|j: int| i <= j < i + equal_run(s, i) ==> s[j] == s[i],
    decreases s.len() - i,
{
    if i + 1 < s.len() && s[i + 1] == s[i] {
        lemma_equal_run_bounds(s, i + 1);
    }
}

proof fn lemma_raw_run_bounds(s: Seq<Pixel>, i: int)
    requires
        0 <= i < s.len(),
    ensures
        1 <= raw_run(s, i) <= s.len() - i,
    decreases s.len() - i,
{
    if i + 1 < s.len() && s[i + 1] != s[i] {
        lemma_raw_run_bounds(s, i + 1);
    }
}

/// A scan that stopped at the first break point j found the run length.
proof fn lemma_equal_run_char(s: Seq<Pixel>, i: int, j: int)
    requires
        0 <= i < j <= s.len(),
        forall|k: int| i < k < j ==> #[trigger] s[k] == s[k - 1],
        j == s.len() || s[j] != s[j - 1],
    ensures
        equal_run(s, i) == j - i,
    decreases s.len() - i,
{
    if i + 1 < s.len() && s[i + 1] == s[i] {
        assert(j != i + 1);
        lemma_equal_run_char(s, i + 1, j);
    } else {
        assert(j == i + 1) by {
            if j > i + 1 {
                assert(s[i + 1] == s[i]);
            }
        }
    }
}

proof fn lemma_raw_run_char(s: Seq<Pixel>, i: int, j: int)
    requires
        0 <= i < j <= s.len(),
        forall|k: int| i < k < j ==> #[trigger] s[k] != s[k - 1],
        j == s.len() || s[j] == s[j - 1],
    ensures
        raw_run(s, i) == j - i,
    decreases s.len() - i,
{
    if i + 1 < s.len() && s[i + 1] != s[i] {
        assert(j != i + 1);
        lemma_raw_run_char(s, i + 1, j);
    } else {
        assert(j == i + 1) by {
            if j > i + 1 {
                assert(s[i + 1] != s[i]);
            }
        }
    }
}

/// A repeat run of n pixels, split into tokens of at most 4095.
pub open spec fn chunk_repeat(p: Pixel, n: int) -> Seq<TokenView>
    decreases n,
{
    if n >= 4096 {
        seq![TokenView::Repeat(p, 4095)] + chunk_repeat(p, n - 4095)
    } else {
        seq![TokenView::Repeat(p, n)]
    }
}

/// A raw run, split into tokens of at most 4095 pixels.
pub open spec fn chunk_raw(px: Seq<Pixel>) -> Seq<TokenView>
    decreases px.len(),
{
    if px.len() >= 4096 {
        seq![TokenView::Raw(px.take(4095))] + chunk_raw(px.skip(4095))
    } else {
        seq![TokenView::Raw(px)]
    }
}

/// The greedy tokenization of the flat pixel sequence, from index i on:
/// where the next two pixels are equal a repeat run starts, otherwise a
/// raw run of pixels that each differ from their predecessor; either run
/// is chunked into tokens of at most 4095 pixels.
pub open spec fn spec_tokenize(s: Seq<Pixel>, i: int) -> Seq<TokenView>
    decreases s.len() - i,
        when 0 <= i
        via spec_tokenize_dec
{
    if i >= s.len() {
        Seq::empty()
    } else if i + 1 < s.len() && s[i + 1] == s[i] {
        chunk_repeat(s[i], equal_run(s, i)) + spec_tokenize(s, i + equal_run(s, i))
    } else {
        chunk_raw(s.subrange(i, i + raw_run(s, i))) + spec_tokenize(s, i + raw_run(s, i))
    }
}

#[via_fn]
proof fn spec_tokenize_dec(s: Seq<Pixel>, i: int) {
    if 0 <= i && i < s.len() {
        lemma_equal_run_bounds(s, i);
        lemma_raw_run_bounds(s, i);
    }
}

proof fn lemma_tokens_single(t: TokenView)
    ensures
        tokens_len(seq![t]) == token_len(t),
        tokens_pixels(seq![t]) == token_pixels(t),
        tokens_bytes(seq![t]) == token_bytes(t),
        tokens_wf(seq![t]) <==> token_wf(t),
{
    let s = seq![t];
    assert(s.len() == 1);
    assert(s[0] == t);
    assert(s.skip(1) =~= Seq::<TokenView>::empty());
    assert(tokens_len(s.skip(1)) == 0);
    assert(tokens_pixels(s.skip(1)) == Seq::<Pixel>::empty());
    assert(tokens_bytes(s.skip(1)) == Seq::<u8>::empty());
    assert(tokens_pixels(s) =~= token_pixels(t));
    assert(tokens_bytes(s) =~= token_bytes(t));
}

proof fn lemma_tokens_concat(a: Seq<TokenView>, b: Seq<TokenView>)
    ensures
        tokens_len(a + b) == tokens_len(a) + tokens_len(b),
        tokens_pixels(a + b) == tokens_pixels(a) + tokens_pixels(b),
        tokens_bytes(a + b) == tokens_bytes(a) + tokens_bytes(b),
        tokens_wf(a + b) <==> tokens_wf(a) && tokens_wf(b),
    decreases a.len(),
{
    if a.len() == 0 {
        assert(a + b =~= b);
        assert(tokens_pixels(a) + tokens_pixels(b) =~= tokens_pixels(b));
        assert(tokens_bytes(a) + tokens_bytes(b) =~= tokens_bytes(b));
    } else {
        assert((a + b)[0] == a[0]);
        assert((a + b).skip(1) =~= a.skip(1) + b);
        lemma_tokens_concat(a.skip(1), b);
        if a.len() + b.len() > 0 {
            assert((a + b).len() > 0);
        }
        assert(tokens_pixels(a + b) =~= tokens_pixels(a) + tokens_pixels(b));
        assert(tokens_bytes(a + b) =~= tokens_bytes(a) + tokens_bytes(b));
        assert(tokens_wf(a + b) <==> tokens_wf(a) && tokens_wf(b)) by {
            if tokens_wf(a.skip(1) + b) && token_wf(a[0]) {
                assert forall|k: int| 0 <= k < a.len() implies token_wf(#[trigger] a[k]) by {
                    if k > 0 {
                        assert(a[k] == a.skip(1)[k - 1]);
                    }
                }
            }
            if tokens_wf(a) {
                assert forall|k: int| 0 <= k < a.skip(1).len() implies token_wf(
                    #[trigger] a.skip(1)[k],
                ) by {
                    assert(a.skip(1)[k] == a[k + 1]);
                }
            }
        }
    }
}

proof fn lemma_chunk_repeat(p: Pixel, n: int)
    requires
        1 <= n,
    ensures
        tokens_wf(chunk_repeat(p, n)),
        tokens_len(chunk_repeat(p, n)) == n,
        tokens_pixels(chunk_repeat(p, n)) == Seq::new(n as nat, |i: int| p),
    decreases n,
{
    if n >= 4096 {
        lemma_chunk_repeat(p, n - 4095);
        lemma_tokens_single(TokenView::Repeat(p, 4095));
        lemma_tokens_concat(seq![TokenView::Repeat(p, 4095)], chunk_repeat(p, n - 4095));
        assert(tokens_pixels(chunk_repeat(p, n)) =~= Seq::new(n as nat, |i: int| p));
    } else {
        lemma_tokens_single(TokenView::Repeat(p, n));
        assert(tokens_pixels(chunk_repeat(p, n)) =~= Seq::new(n as nat, |i: int| p));
    }
}

proof fn lemma_chunk_raw(px: Seq<Pixel>)
    requires
        1 <= px.len(),
    ensures
        tokens_wf(chunk_raw(px)),
        tokens_len(chunk_raw(px)) == px.len(),
        tokens_pixels(chunk_raw(px)) == px,
    decreases px.len(),
{
    if px.len() >= 4096 {
        lemma_chunk_raw(px.skip(4095));
        lemma_tokens_single(TokenView::Raw(px.take(4095)));
        lemma_tokens_concat(seq![TokenView::Raw(px.take(4095))], chunk_raw(px.skip(4095)));
        assert(tokens_pixels(chunk_raw(px)) =~= px);
    } else {
        lemma_tokens_single(TokenView::Raw(px));
    }
}

/// The views of a sequence of tokens.
pub open spec fn tokens_view(ts: Seq<Token>) -> Seq<TokenView> {
    ts.map(|k: int, t: Token| t@)
}

proof fn lemma_tokens_view_push(ts: Seq<Token>, t: Token)
    ensures
        tokens_view(ts.push(t)) == tokens_view(ts) + seq![t@],
{
    assert(tokens_view(ts.push(t)) =~= tokens_view(ts) + seq![t@]);
}

/// What the greedy tokenization guarantees: every token is well formed
/// (its length field is in 1..=4095), and the tokens' pixels are exactly
/// the scanned suffix of the input.
pub proof fn lemma_tokenize_correct(s: Seq<Pixel>, i: int)
    requires
        0 <= i <= s.len(),
    ensures
        tokens_wf(spec_tokenize(s, i)),
        tokens_len(spec_tokenize(s, i)) == s.len() - i,
        tokens_pixels(spec_tokenize(s, i)) == s.subrange(i, s.len() as int),
    decreases s.len() - i,
{
    if i >= s.len() {
        assert(s.subrange(i, s.len() as int) =~= Seq::<Pixel>::empty());
    } else if i + 1 < s.len() && s[i + 1] == s[i] {
        let n = equal_run(s, i);
        lemma_equal_run_bounds(s, i);
        lemma_chunk_repeat(s[i], n);
        lemma_tokenize_correct(s, i + n);
        lemma_tokens_concat(chunk_repeat(s[i], n), spec_tokenize(s, i + n));
        assert(Seq::new(n as nat, |k: int| s[i]) =~= s.subrange(i, i + n));
        assert(s.subrange(i, i + n) + s.subrange(i + n, s.len() as int) =~= s.subrange(
            i,
            s.len() as int,
        ));
    } else {
        let n = raw_run(s, i);
        lemma_raw_run_bounds(s, i);
        lemma_chunk_raw(s.subrange(i, i + n));
        lemma_tokenize_correct(s, i + n);
        lemma_tokens_concat(chunk_raw(s.subrange(i, i + n)), spec_tokenize(s, i + n));
        assert(s.subrange(i, i + n) + s.subrange(i + n, s.len() as int) =~= s.subrange(
            i,
            s.len() as int,
        ));
    }
}

/// Greedy run-length tokenization of a flat pixel buffer: where the next
/// two pixels are equal a repeat run starts, otherwise a raw run; runs
/// longer than 4095 pixels are chunked into successive tokens.
#[verifier::rlimit(60)]
pub fn tokenize(pixels: &Vec<Pixel>) -> (r: Vec<Token>)
    ensures
        tokens_view(r@) == spec_tokenize(pixels@, 0),
        tokens_wf(tokens_view(r@)),
        tokens_pixels(tokens_view(r@)) == pixels@,
        tokens_len(tokens_view(r@)) == pixels@.len(),
{
    let ghost s = pixels@;
    let total = pixels.len();
    let mut r: Vec<Token> = Vec::new();
    let mut idx: usize = 0;
    while idx < total
        invariant
            s == pixels@,
            total == s.len(),
            idx <= total,
            tokens_view(r@) + spec_tokenize(s, idx as int) == spec_tokenize(s, 0),
        decreases total - idx,
    {
        if idx + 1 < total && pixels[idx + 1] == pixels[idx] {
            // A repeat run: scan to its end, then emit chunked tokens.
            let px = pixels[idx];
            let mut j = idx + 1;
            while j < total && pixels[j] == px
                invariant
                    s == pixels@,
                    total == s.len(),
                    idx < j <= total,
                    idx < total,
                    px == s[idx as int],
                    forall|k: int| idx <= k < j ==> s[k] == s[idx as int],
                decreases total - j,
            {
                j = j + 1;
            }
            proof {
                assert forall|k: int| idx < k < j implies #[trigger] s[k] == s[k - 1] by {
                    assert(s[k] == s[idx as int]);
                    assert(s[k - 1] == s[idx as int]);
                }
                assert(s[j - 1] == s[idx as int]);
                lemma_equal_run_char(s, idx as int, j as int);
                assert(spec_tokenize(s, idx as int) == chunk_repeat(px, (j - idx) as int)
                    + spec_tokenize(s, j as int));
                assert(tokens_view(r@) + chunk_repeat(px, (j - idx) as int) + spec_tokenize(
                    s,
                    j as int,
                ) =~= spec_tokenize(s, 0));
            }
            let mut left = j - idx;
            while left >= 4096
                invariant
                    s == pixels@,
                    total == s.len(),
                    idx < j <= total,
                    1 <= left,
                    tokens_view(r@) + chunk_repeat(px, left as int) + spec_tokenize(s, j as int)
                        == spec_tokenize(s, 0),
                decreases left,
            {
                let ghost prev = r@;
                r.push(Token::Repeat(px, 4095));
                proof {
                    lemma_tokens_view_push(prev, r@.last());
                    assert(chunk_repeat(px, left as int) == seq![TokenView::Repeat(px, 4095)]
                        + chunk_repeat(px, left as int - 4095));
                    assert(tokens_view(r@) + chunk_repeat(px, left as int - 4095)
                        + spec_tokenize(s, j as int) =~= spec_tokenize(s, 0));
                }
                left = left - 4095;
            }
            let ghost prev = r@;
            r.push(Token::Repeat(px, left as u16));
            proof {
                lemma_tokens_view_push(prev, r@.last());
                assert(chunk_repeat(px, left as int) == seq![TokenView::Repeat(px, left as int)]);
                assert(r@.last()@ == TokenView::Repeat(px, left as int));
                assert(tokens_view(r@) + spec_tokenize(s, j as int) =~= spec_tokenize(s, 0));
            }
            idx = j;
        } else {
            // A raw run: scan while each pixel differs from its
            // predecessor, then emit chunked tokens.
            let mut j = idx + 1;
            while j < total && pixels[j] != pixels[j - 1]
                invariant
                    s == pixels@,
                    total == s.len(),
                    idx < j <= total,
                    idx < total,
                    forall|k: int| idx < k < j ==> #[trigger] s[k] != s[k - 1],
                decreases total - j,
            {
                j = j + 1;
            }
            proof {
                lemma_raw_run_char(s, idx as int, j as int);
                assert(!(idx + 1 < total && s[idx as int + 1] == s[idx as int]));
                assert(spec_tokenize(s, idx as int) == chunk_raw(s.subrange(idx as int, j as int))
                    + spec_tokenize(s, j as int));
                assert(tokens_view(r@) + chunk_raw(s.subrange(idx as int, j as int))
                    + spec_tokenize(s, j as int) =~= spec_tokenize(s, 0));
            }
            let mut pos = idx;
            while j - pos >= 4096
                invariant
                    s == pixels@,
                    total == s.len(),
                    idx <= pos < j <= total,
                    tokens_view(r@) + chunk_raw(s.subrange(pos as int, j as int)) + spec_tokenize(
                        s,
                        j as int,
                    ) == spec_tokenize(s, 0),
                decreases j - pos,
            {
                let mut chunk: Vec<Pixel> = Vec::new();
                let mut k = pos;
                proof {
                    assert(chunk@ =~= s.subrange(pos as int, pos as int));
                }
                while k < pos + 4095
                    invariant
                        s == pixels@,
                        total == s.len(),
                        pos <= k <= pos + 4095,
                        pos + 4095 < j <= total,
                        chunk@ == s.subrange(pos as int, k as int),
                    decreases pos + 4095 - k,
                {
                    chunk.push(pixels[k]);
                    proof {
                        assert(chunk@ =~= s.subrange(pos as int, k as int + 1));
                    }
                    k = k + 1;
                }
                let ghost sub = s.subrange(pos as int, j as int);
                proof {
                    assert(sub.len() >= 4096);
                    assert(chunk_raw(sub) == seq![TokenView::Raw(sub.take(4095))] + chunk_raw(
                        sub.skip(4095),
                    ));
                    assert(sub.take(4095) =~= chunk@);
                    assert(sub.skip(4095) =~= s.subrange(pos as int + 4095, j as int));
                }
                let ghost prev = r@;
                r.push(Token::Raw(chunk));
                proof {
                    lemma_tokens_view_push(prev, r@.last());
                    assert(tokens_view(r@) + chunk_raw(s.subrange(pos as int + 4095, j as int))
                        + spec_tokenize(s, j as int) =~= spec_tokenize(s, 0));
                }
                pos = pos + 4095;
            }
            let mut chunk: Vec<Pixel> = Vec::new();
            let mut k = pos;
            proof {
                assert(chunk@ =~= s.subrange(pos as int, pos as int));
            }
            while k < j
                invariant
                    s == pixels@,
                    total == s.len(),
                    pos <= k <= j <= total,
                    chunk@ == s.subrange(pos as int, k as int),
                decreases j - k,
            {
                chunk.push(pixels[k]);
                proof {
                    assert(chunk@ =~= s.subrange(pos as int, k as int + 1));
                }
                k = k + 1;
            }
            proof {
                assert(chunk_raw(s.subrange(pos as int, j as int)) == seq![
                    TokenView::Raw(s.subrange(pos as int, j as int)),
                ]);
            }
            let ghost prev = r@;
            r.push(Token::Raw(chunk));
            proof {
                lemma_tokens_view_push(prev, r@.last());
                assert(tokens_view(r@) + spec_tokenize(s, j as int) =~= spec_tokenize(s, 0));
            }
            idx = j;
        }
    }
    proof {
        assert(spec_tokenize(s, total as int) == Seq::<TokenView>::empty());
        assert(tokens_view(r@) =~= spec_tokenize(s, 0));
        lemma_tokenize_correct(s, 0);
        assert(s.subrange(0, s.len() as int) =~= s);
    }
    r
}

/// A 16-bit value in big-endian byte order.
pub open spec fn be16_bytes(v: int) -> Seq<u8> {
    seq![(v / 256) as u8, (v % 256) as u8]
}

/// The full image blob: magic, big-endian width and height, token stream.
pub open spec fn blob_bytes(g: GridView) -> Seq<u8> {
    blob_magic() + be16_bytes(g.width) + be16_bytes(g.height) + tokens_bytes(
        spec_tokenize(g.pixels, 0),
    )
}

/// Serialize one image to its blob bytes. Fails with DimensionOverflow
/// exactly when a dimension does not fit the 16-bit header field.
pub fn encode_image(g: &PixelGrid) -> (r: Result<Vec<u8>, Error>)
    requires
        g.wf(),
    ensures
        match r {
            Ok(bytes) => g@.width <= 0xFFFF && g@.height <= 0xFFFF && bytes@ == blob_bytes(g@),
            Err(e) => e == Error::DimensionOverflow && (g@.width > 0xFFFF || g@.height > 0xFFFF),
        },
{
    if g.width > 0xFFFF || g.height > 0xFFFF {
        return Err(Error::DimensionOverflow);
    }
    let mut data: Vec<u8> = Vec::new();
    data.push(0x4D);
    data.push(0x6F);
    data.push(0x74);
    data.push(0x6F);
    data.push(0x52);
    data.push(0x75);
    data.push(0x6E);
    data.push(0x00);
    let w = g.width as u16;
    let h = g.height as u16;
    data.push((w / 256) as u8);
    data.push((w % 256) as u8);
    data.push((h / 256) as u8);
    data.push((h % 256) as u8);
    proof {
        assert(data@ =~= blob_magic() + be16_bytes(g@.width) + be16_bytes(g@.height));
    }
    let tokens = tokenize(&g.pixels);
    let ghost ts = tokens_view(tokens@);
    let ghost base = data@;
    let mut ti: usize = 0;
    proof {
        assert(ts.skip(0) =~= ts);
    }
    while ti < tokens.len()
        invariant
            ts == tokens_view(tokens@),
            tokens_wf(ts),
            ti <= tokens@.len(),
            ts.len() == tokens@.len(),
            data@ + tokens_bytes(ts.skip(ti as int)) == base + tokens_bytes(ts),
        decreases tokens@.len() - ti,
    {
        proof {
            assert(ts.skip(ti as int)[0] == ts[ti as int]);
            assert(ts.skip(ti as int).skip(1) =~= ts.skip(ti as int + 1));
            assert(tokens_bytes(ts.skip(ti as int)) == token_bytes(ts[ti as int]) + tokens_bytes(
                ts.skip(ti as int + 1),
            ));
            assert(token_wf(ts[ti as int]));
            assert(ts[ti as int] == tokens@[ti as int]@);
        }
        let ghost data0 = data@;
        match &tokens[ti] {
            Token::Raw(px) => {
                let len = px.len();
                data.push((len / 256) as u8);
                data.push((len % 256) as u8);
                proof {
                    assert(data@ =~= data0 + token_header_bytes(0, px@.len() as int));
                }
                let ghost hdr = data@;
                let mut k: usize = 0;
                proof {
                    assert(px@.skip(0) =~= px@);
                }
                while k < px.len()
                    invariant
                        k <= px@.len(),
                        data@ + pixels_bytes(px@.skip(k as int)) == hdr + pixels_bytes(px@),
                    decreases px@.len() - k,
                {
                    proof {
                        assert(px@.skip(k as int)[0] == px@[k as int]);
                        assert(px@.skip(k as int).skip(1) =~= px@.skip(k as int + 1));
                    }
                    let p = px[k];
                    data.push(p.b);
                    data.push(p.g);
                    data.push(p.r);
                    k = k + 1;
                }
                proof {
                    assert(px@.skip(px@.len() as int) =~= Seq::<Pixel>::empty());
                    assert(data@ =~= data0 + token_bytes(ts[ti as int]));
                }
            },
            Token::Repeat(p, n) => {
                let n = *n;
                let p = *p;
                data.push((128 + n / 256) as u8);
                data.push((n % 256) as u8);
                data.push(p.b);
                data.push(p.g);
                data.push(p.r);
                proof {
                    assert(data@ =~= data0 + token_bytes(ts[ti as int]));
                }
            },
        }
        proof {
            assert(data@ + tokens_bytes(ts.skip(ti as int + 1)) =~= base + tokens_bytes(ts));
        }
        ti = ti + 1;
    }
    proof {
        assert(ts.skip(ts.len() as int) =~= Seq::<TokenView>::empty());
        assert(data@ =~= base + tokens_bytes(ts));
        assert(data@ =~= blob_bytes(g@));
    }
    Ok(data)
}

/// The pixel stored at byte position p (B, G, R on the wire).
pub open spec fn pixel_at(b: Seq<u8>, p: int) -> Pixel {
    Pixel { r: b[p + 2], g: b[p + 1], b: b[p] }
}

/// The `len` pixels stored from byte position p on.
pub open spec fn raw_pixels_at(b: Seq<u8>, p: int, len: int) -> Seq<Pixel> {
    Seq::new(len as nat, |i: int| pixel_at(b, p + 3 * i))
}

/// Parse the token stream at byte position `pos` until exactly
/// `remaining` pixels have been produced, or the first error: a header or
/// payload cut short, a length past the pixel count, an unknown mode.
pub open spec fn parse_tokens(b: Seq<u8>, pos: int, remaining: int) -> Result<Seq<Pixel>, Error>
    decreases remaining, b.len() - pos,
        when 0 <= pos <= b.len()
{
    if remaining <= 0 {
        Ok(Seq::empty())
    } else if pos + 2 > b.len() {
        Err(Error::TruncatedArchive)
    } else {
        let mode = b[pos] as int / 16;
        let len = (b[pos] as int % 16) * 256 + b[pos + 1] as int;
        if len > remaining {
            Err(Error::TokenOverrun)
        } else if mode == 0 {
            if pos + 2 + 3 * len > b.len() {
                Err(Error::TruncatedArchive)
            } else {
                match parse_tokens(b, pos + 2 + 3 * len, remaining - len) {
                    Ok(tail) => Ok(raw_pixels_at(b, pos + 2, len) + tail),
                    Err(e) => Err(e),
                }
            }
        } else if mode == 8 {
            if pos + 5 > b.len() {
                Err(Error::TruncatedArchive)
            } else {
                match parse_tokens(b, pos + 5, remaining - len) {
                    Ok(tail) => Ok(Seq::new(len as nat, |i: int| pixel_at(b, pos + 2)) + tail),
                    Err(e) => Err(e),
                }
            }
        } else {
            Err(Error::UnknownTokenMode)
        }
    }
}

/// What decoding a blob yields: the grid, or the first error met.
pub open spec fn spec_decode_blob(b: Seq<u8>) -> Result<GridView, Error> {
    if b.len() < 12 {
        Err(Error::TruncatedArchive)
    } else if b.subrange(0, 8) != blob_magic() {
        Err(Error::BadMagic)
    } else {
        let w = b[8] as int * 256 + b[9] as int;
        let h = b[10] as int * 256 + b[11] as int;
        match parse_tokens(b, 12, w * h) {
            Ok(px) => Ok(GridView { width: w, height: h, pixels: px }),
            Err(e) => Err(e),
        }
    }
}

/// Deserialize one image blob. The exact outcome, error included, is
/// `spec_decode_blob` of the bytes.
pub fn decode_image(bytes: &Vec<u8>) -> (r: Result<PixelGrid, Error>)
    ensures
        match r {
            Ok(g) => g.wf() && spec_decode_blob(bytes@) == Ok::<GridView, Error>(g@),
            Err(e) => spec_decode_blob(bytes@) == Err::<GridView, Error>(e),
        },
{
    let n = bytes.len();
    if n < 12 {
        return Err(Error::TruncatedArchive);
    }
    let magic_ok = bytes[0] == 0x4D && bytes[1] == 0x6F && bytes[2] == 0x74 && bytes[3] == 0x6F
        && bytes[4] == 0x52 && bytes[5] == 0x75 && bytes[6] == 0x6E && bytes[7] == 0x00;
    proof {
        let pre = bytes@.subrange(0, 8);
        assert(pre[0] == bytes@[0]);
        assert(pre[1] == bytes@[1]);
        assert(pre[2] == bytes@[2]);
        assert(pre[3] == bytes@[3]);
        assert(pre[4] == bytes@[4]);
        assert(pre[5] == bytes@[5]);
        assert(pre[6] == bytes@[6]);
        assert(pre[7] == bytes@[7]);
        if magic_ok {
            assert(pre =~= blob_magic());
        }
    }
    if !magic_ok {
        return Err(Error::BadMagic);
    }
    let w = (bytes[8] as u32) * 256 + (bytes[9] as u32);
    let h = (bytes[10] as u32) * 256 + (bytes[11] as u32);
    proof {
        assert(w as int * h as int <= 0xFFFF * 0xFFFF) by (nonlinear_arith)
            requires
                0 <= w as int <= 0xFFFF,
                0 <= h as int <= 0xFFFF,
        ;
    }
    let total: usize = (w as usize) * (h as usize);
    let ghost target = parse_tokens(bytes@, 12, (w * h) as int);
    let mut pixels: Vec<Pixel> = Vec::new();
    let mut idx: usize = 0;
    let mut pos: usize = 12;
    proof {
        match parse_tokens(bytes@, 12, total as int) {
            Ok(t) => {
                assert(pixels@ + t =~= t);
            },
            Err(e) => {},
        }
    }
    while idx < total
        invariant
            bytes@.len() == n,
            n >= 12,
            total == w * h,
            w <= 0xFFFF,
            h <= 0xFFFF,
            w == bytes@[8] as int * 256 + bytes@[9] as int,
            h == bytes@[10] as int * 256 + bytes@[11] as int,
            bytes@.subrange(0, 8) == blob_magic(),
            idx <= total,
            pixels@.len() == idx,
            12 <= pos <= n,
            target == parse_tokens(bytes@, 12, total as int),
            (match parse_tokens(bytes@, pos as int, (total - idx) as int) {
                Ok(tail) => target == Ok::<Seq<Pixel>, Error>(pixels@ + tail),
                Err(e) => target == Err::<Seq<Pixel>, Error>(e),
            }),
        decreases total - idx, n - pos,
    {
        if n - pos < 2 {
            return Err(Error::TruncatedArchive);
        }
        let b0 = bytes[pos];
        let b1 = bytes[pos + 1];
        let mode = b0 / 16;
        let len16: u16 = ((b0 % 16) as u16) * 256 + (b1 as u16);
        let len = len16 as usize;
        if len > total - idx {
            return Err(Error::TokenOverrun);
        }
        let ghost rem = (total - idx) as int;
        if mode == 0 {
            if 3 * len > n - (pos + 2) {
                return Err(Error::TruncatedArchive);
            }
            let ghost before = pixels@;
            let mut k: usize = 0;
            proof {
                assert(pixels@ =~= before + raw_pixels_at(bytes@, pos as int + 2, 0));
            }
            while k < len
                invariant
                    bytes@.len() == n,
                    k <= len,
                    12 <= pos,
                    pos + 2 + 3 * len <= n,
                    pixels@ == before + raw_pixels_at(bytes@, pos as int + 2, k as int),
                decreases len - k,
            {
                let base = pos + 2 + 3 * k;
                let p = Pixel { r: bytes[base + 2], g: bytes[base + 1], b: bytes[base] };
                pixels.push(p);
                proof {
                    assert(pixels@ =~= before + raw_pixels_at(bytes@, pos as int + 2, k as int + 1));
                }
                k = k + 1;
            }
            proof {
                let tail2 = parse_tokens(bytes@, pos as int + 2 + 3 * len, rem - len);
                match tail2 {
                    Ok(t2) => {
                        assert(pixels@ + t2 =~= before + (raw_pixels_at(
                            bytes@,
                            pos as int + 2,
                            len as int,
                        ) + t2));
                    },
                    Err(e) => {},
                }
            }
            idx = idx + len;
            pos = pos + 2 + 3 * len;
        } else if mode == 8 {
            if n - pos < 5 {
                return Err(Error::TruncatedArchive);
            }
            let p = Pixel { r: bytes[pos + 4], g: bytes[pos + 3], b: bytes[pos + 2] };
            let ghost before = pixels@;
            let mut k: usize = 0;
            proof {
                assert(pixels@ =~= before + Seq::new(0, |i: int| pixel_at(bytes@, pos as int + 2)));
            }
            while k < len
                invariant
                    bytes@.len() == n,
                    k <= len,
                    12 <= pos,
                    pos + 5 <= n,
                    p == pixel_at(bytes@, pos as int + 2),
                    pixels@ == before + Seq::new(k as nat, |i: int| pixel_at(bytes@, pos as int + 2)),
                decreases len - k,
            {
                pixels.push(p);
                proof {
                    assert(pixels@ =~= before + Seq::new(
                        (k + 1) as nat,
                        |i: int| pixel_at(bytes@, pos as int + 2),
                    ));
                }
                k = k + 1;
            }
            proof {
                let tail2 = parse_tokens(bytes@, pos as int + 5, rem - len);
                match tail2 {
                    Ok(t2) => {
                        assert(pixels@ + t2 =~= before + (Seq::new(
                            len as nat,
                            |i: int| pixel_at(bytes@, pos as int + 2),
                        ) + t2));
                    },
                    Err(e) => {},
                }
            }
            idx = idx + len;
            pos = pos + 5;
        } else {
            return Err(Error::UnknownTokenMode);
        }
    }
    proof {
        assert(parse_tokens(bytes@, pos as int, 0) == Ok::<Seq<Pixel>, Error>(Seq::<Pixel>::empty()));
        assert(pixels@ + Seq::<Pixel>::empty() =~= pixels@);
        assert(target == Ok::<Seq<Pixel>, Error>(pixels@));
    }
    Ok(PixelGrid { width: w, height: h, pixels })
}

proof fn lemma_tokens_len_nonneg(ts: Seq<TokenView>)
    requires
        tokens_wf(ts),
    ensures
        tokens_len(ts) >= ts.len(),
    decreases ts.len(),
{
    if ts.len() > 0 {
        assert(token_wf(ts[0]));
        assert forall|k: int| 0 <= k < ts.skip(1).len() implies token_wf(
            #[trigger] ts.skip(1)[k],
        ) by {
            assert(ts.skip(1)[k] == ts[k + 1]);
        }
        lemma_tokens_len_nonneg(ts.skip(1));
    }
}

proof fn lemma_pixels_bytes_len(px: Seq<Pixel>)
    ensures
        pixels_bytes(px).len() == 3 * px.len(),
    decreases px.len(),
{
    if px.len() > 0 {
        lemma_pixels_bytes_len(px.skip(1));
    }
}

/// Reading back pixel bytes recovers the pixels.
proof fn lemma_raw_pixels_roundtrip(b: Seq<u8>, p: int, px: Seq<Pixel>)
    requires
        0 <= p,
        p + 3 * px.len() <= b.len(),
        b.subrange(p, p + 3 * px.len()) == pixels_bytes(px),
    ensures
        raw_pixels_at(b, p, px.len() as int) == px,
    decreases px.len(),
{
    lemma_pixels_bytes_len(px);
    if px.len() == 0 {
        assert(raw_pixels_at(b, p, 0) =~= px);
    } else {
        let sub = b.subrange(p, p + 3 * px.len());
        assert(pixels_bytes(px) == pixel_bytes(px[0]) + pixels_bytes(px.skip(1)));
        lemma_pixels_bytes_len(px.skip(1));
        assert(sub[0] == b[p] && sub[1] == b[p + 1] && sub[2] == b[p + 2]);
        assert(pixels_bytes(px)[0] == px[0].b);
        assert(pixels_bytes(px)[1] == px[0].g);
        assert(pixels_bytes(px)[2] == px[0].r);
        assert(b.subrange(p + 3, p + 3 + 3 * px.skip(1).len()) =~= pixels_bytes(px.skip(1))) by {
            assert forall|i: int| 0 <= i < 3 * px.skip(1).len() implies b.subrange(
                p + 3,
                p + 3 + 3 * px.skip(1).len(),
            )[i] == pixels_bytes(px.skip(1))[i] by {
                assert(b[p + 3 + i] == sub[3 + i]);
                assert(sub[3 + i] == pixels_bytes(px)[3 + i]);
                assert(pixels_bytes(px)[3 + i] == pixels_bytes(px.skip(1))[i]);
            }
        }
        lemma_raw_pixels_roundtrip(b, p + 3, px.skip(1));
        assert(raw_pixels_at(b, p, px.len() as int) =~= px) by {
            assert forall|i: int| 0 <= i < px.len() implies raw_pixels_at(
                b,
                p,
                px.len() as int,
            )[i] == px[i] by {
                if i == 0 {
                    assert(pixel_at(b, p) == px[0]);
                } else {
                    assert(raw_pixels_at(b, p + 3, px.skip(1).len() as int)[i - 1] == px.skip(
                        1,
                    )[i - 1]);
                    assert(p + 3 + 3 * (i - 1) == p + 3 * i);
                }
            }
        }
    }
}

/// Parsing the serialized bytes of a well-formed token sequence yields
/// exactly its pixels.
proof fn lemma_parse_tokens_bytes(b: Seq<u8>, pos: int, ts: Seq<TokenView>)
    requires
        tokens_wf(ts),
        0 <= pos,
        pos + tokens_bytes(ts).len() <= b.len(),
        b.subrange(pos, pos + tokens_bytes(ts).len()) == tokens_bytes(ts),
    ensures
        parse_tokens(b, pos, tokens_len(ts)) == Ok::<Seq<Pixel>, Error>(tokens_pixels(ts)),
    decreases ts.len(),
{
    if ts.len() == 0 {
        assert(tokens_len(ts) == 0);
        assert(tokens_pixels(ts) == Seq::<Pixel>::empty());
    } else {
        let t = ts[0];
        let rest = ts.skip(1);
        assert(token_wf(t));
        assert forall|k: int| 0 <= k < rest.len() implies token_wf(#[trigger] rest[k]) by {
            assert(rest[k] == ts[k + 1]);
        }
        lemma_tokens_len_nonneg(rest);
        let tb = token_bytes(t);
        let rb = tokens_bytes(rest);
        assert(tokens_bytes(ts) == tb + rb);
        let remaining = tokens_len(ts);
        assert(remaining == token_len(t) + tokens_len(rest));
        let all = b.subrange(pos, pos + tokens_bytes(ts).len());
        match t {
            TokenView::Raw(px) => {
                lemma_pixels_bytes_len(px);
                assert(tb.len() == 2 + 3 * px.len());
                let hi = px.len() as int / 256;
                let lo = px.len() as int % 256;
                vstd::arithmetic::div_mod::lemma_fundamental_div_mod(px.len() as int, 256);
                vstd::arithmetic::div_mod::lemma_mod_bound(px.len() as int, 256);
                assert(0 <= hi < 16);
                assert(tb[0] == hi as u8 && tb[1] == lo as u8);
                assert(b[pos] == all[0] && all[0] == tb[0]);
                assert(b[pos + 1] == all[1] && all[1] == tb[1]);
                assert(b[pos] as int / 16 == 0);
                assert((b[pos] as int % 16) * 256 + b[pos + 1] as int == px.len() as int);
                assert(b.subrange(pos + 2, pos + 2 + 3 * px.len()) =~= pixels_bytes(px)) by {
                    assert forall|i: int| 0 <= i < 3 * px.len() implies b.subrange(
                        pos + 2,
                        pos + 2 + 3 * px.len(),
                    )[i] == pixels_bytes(px)[i] by {
                        assert(b[pos + 2 + i] == all[2 + i]);
                        assert(all[2 + i] == tb[2 + i]);
                        assert(tb[2 + i] == pixels_bytes(px)[i]);
                    }
                }
                lemma_raw_pixels_roundtrip(b, pos + 2, px);
                assert(b.subrange(pos + tb.len(), pos + tb.len() + rb.len()) =~= rb) by {
                    assert forall|i: int| 0 <= i < rb.len() implies b.subrange(
                        pos + tb.len(),
                        pos + tb.len() + rb.len(),
                    )[i] == rb[i] by {
                        assert(b[pos + tb.len() + i] == all[tb.len() + i]);
                        assert(all[tb.len() + i] == rb[i]);
                    }
                }
                lemma_parse_tokens_bytes(b, pos + tb.len(), rest);
                assert(parse_tokens(b, pos, remaining) == Ok::<Seq<Pixel>, Error>(
                    tokens_pixels(ts),
                ));
            },
            TokenView::Repeat(p, nn) => {
                assert(tb.len() == 5);
                let hi = nn / 256;
                let lo = nn % 256;
                vstd::arithmetic::div_mod::lemma_fundamental_div_mod(nn, 256);
                vstd::arithmetic::div_mod::lemma_mod_bound(nn, 256);
                assert(0 <= hi < 16);
                assert(tb[0] == (128 + hi) as u8 && tb[1] == lo as u8);
                assert(tb[2] == p.b && tb[3] == p.g && tb[4] == p.r);
                assert(b[pos] == all[0] && all[0] == tb[0]);
                assert(b[pos + 1] == all[1] && all[1] == tb[1]);
                assert(b[pos + 2] == all[2] && all[2] == tb[2]);
                assert(b[pos + 3] == all[3] && all[3] == tb[3]);
                assert(b[pos + 4] == all[4] && all[4] == tb[4]);
                assert(b[pos] as int / 16 == 8);
                assert((b[pos] as int % 16) * 256 + b[pos + 1] as int == nn);
                assert(pixel_at(b, pos + 2) == p);
                assert(b.subrange(pos + 5, pos + 5 + rb.len()) =~= rb) by {
                    assert forall|i: int| 0 <= i < rb.len() implies b.subrange(
                        pos + 5,
                        pos + 5 + rb.len(),
                    )[i] == rb[i] by {
                        assert(b[pos + 5 + i] == all[5 + i]);
                        assert(all[5 + i] == rb[i]);
                    }
                }
                lemma_parse_tokens_bytes(b, pos + 5, rest);
                assert(Seq::new(nn as nat, |i: int| pixel_at(b, pos + 2)) =~= token_pixels(t));
                assert(parse_tokens(b, pos, remaining) == Ok::<Seq<Pixel>, Error>(
                    tokens_pixels(ts),
                ));
            },
        }
    }
}

/// Round trip: decoding an encoded image blob yields the grid back, for
/// every well-formed grid whose dimensions fit the 16-bit header fields.
pub proof fn lemma_image_round_trip(g: GridView)
    requires
        g.wf(),
        0 <= g.width <= 0xFFFF,
        0 <= g.height <= 0xFFFF,
    ensures
        spec_decode_blob(blob_bytes(g)) == Ok::<GridView, Error>(g),
{
    let b = blob_bytes(g);
    let ts = spec_tokenize(g.pixels, 0);
    lemma_tokenize_correct(g.pixels, 0);
    assert(g.pixels.subrange(0, g.pixels.len() as int) =~= g.pixels);
    let hdr = blob_magic() + be16_bytes(g.width) + be16_bytes(g.height);
    assert(hdr.len() == 12);
    assert(b == hdr + tokens_bytes(ts));
    assert(b.len() == 12 + tokens_bytes(ts).len());
    assert(b.subrange(0, 8) =~= blob_magic());
    vstd::arithmetic::div_mod::lemma_fundamental_div_mod(g.width, 256);
    vstd::arithmetic::div_mod::lemma_mod_bound(g.width, 256);
    vstd::arithmetic::div_mod::lemma_fundamental_div_mod(g.height, 256);
    vstd::arithmetic::div_mod::lemma_mod_bound(g.height, 256);
    assert(b[8] == (g.width / 256) as u8 && b[9] == (g.width % 256) as u8);
    assert(b[10] == (g.height / 256) as u8 && b[11] == (g.height % 256) as u8);
    assert(b[8] as int * 256 + b[9] as int == g.width);
    assert(b[10] as int * 256 + b[11] as int == g.height);
    assert(b.subrange(12, b.len() as int) =~= tokens_bytes(ts));
    lemma_parse_tokens_bytes(b, 12, ts);
    assert(tokens_len(ts) == g.width * g.height);
    assert(parse_tokens(b, 12, g.width * g.height) == Ok::<Seq<Pixel>, Error>(g.pixels));
    assert(spec_decode_blob(b) == Ok::<GridView, Error>(
        GridView { width: g.width, height: g.height, pixels: g.pixels },
    ));
    assert(GridView { width: g.width, height: g.height, pixels: g.pixels } == g);
}

} // verus!
