use vstd::prelude::*;

verus! {

/// The byte at index `k` of the BGRA form of RGBA pixels: red and blue trade places in each
/// four-byte pixel.
pub open spec fn bgra_byte(rgba: Seq<u8>, k: int) -> u8 {
    let base = k - k % 4;
    if k % 4 == 0 {
        rgba[base + 2]
    } else if k % 4 == 2 {
        rgba[base]
    } else {
        rgba[k]
    }
}

/// The BGRA form of RGBA pixels.
pub open spec fn bgra_of(rgba: Seq<u8>) -> Seq<u8> {
    Seq::new(rgba.len(), |k: int| bgra_byte(rgba, k))
}

/// Copies RGBA pixels (`src`, a `width` by `height` image) into `buffer` in BGRA byte order.
/// When either holds other than `width * height * 4` bytes, the buffer is cleared to zero.
pub fn pixmap_to_canvas_bgra(src: &[u8], buffer: &mut [u8], width: u32, height: u32)
    requires
        width * height * 4 <= usize::MAX,
    ensures
        src@.len() == width * height * 4 && old(buffer)@.len() == width * height * 4
            ==> final(buffer)@ == bgra_of(src@),
        !(src@.len() == width * height * 4 && old(buffer)@.len() == width * height * 4)
            ==> final(buffer)@ == Seq::new(old(buffer)@.len(), |k: int| 0u8),
{
    let w = width as usize;
    let h = height as usize;
    assert(w * h <= w * h * 4) by (nonlinear_arith);
    let expected_len = w * h * 4;
    if src.len() != expected_len || buffer.len() != expected_len {
        let mut i: usize = 0;
        let ghost n = buffer@.len();
        while i < buffer.len()
            invariant
                buffer@.len() == n,
                i <= n,
                forall|k: int| 0 <= k < i ==> buffer@[k] == 0u8,
            decreases n - i,
        {
            buffer[i] = 0;
            i = i + 1;
        }
        assert(buffer@ =~= Seq::new(n, |k: int| 0u8));
        return;
    }
    let n = expected_len;
    assert(n % 4 == 0) by (nonlinear_arith)
        requires
            n == w * h * 4,
    ;
    let mut p: usize = 0;
    while p < n
        invariant
            src@.len() == n,
            buffer@.len() == n,
            n % 4 == 0,
            p <= n,
            p % 4 == 0,
            forall|k: int| 0 <= k < p ==> buffer@[k] == bgra_byte(src@, k),
        decreases n - p,
    {
        let r = src[p];
        let g = src[p + 1];
        let b = src[p + 2];
        let a = src[p + 3];
        buffer[p] = b;
        buffer[p + 1] = g;
        buffer[p + 2] = r;
        buffer[p + 3] = a;
        assert forall|k: int| 0 <= k < p + 4 implies buffer@[k] == bgra_byte(src@, k) by {
            if k >= p {
                assert(k - k % 4 == p);
            }
        }
        p = p + 4;
    }
    assert(buffer@ =~= bgra_of(src@));
}

/// Law: converting to BGRA twice gives the pixels back (the swap is its own inverse).
pub proof fn bgra_swap_is_involution(rgba: Seq<u8>)
    requires
        rgba.len() % 4 == 0,
    ensures
        bgra_of(bgra_of(rgba)) == rgba,
{
    let once = bgra_of(rgba);
    assert forall|k: int| 0 <= k < rgba.len() implies bgra_of(once)[k] == rgba[k] by {
        let base = k - k % 4;
        assert(base + 3 < rgba.len());
        assert((base + 2) % 4 == 2 && (base + 2) - (base + 2) % 4 == base);
        assert(base % 4 == 0 && base - base % 4 == base);
    }
    assert(bgra_of(once) =~= rgba);
}

} // verus!
