//! The kinds of request that the generator can send, and what each one carries.

use crate::text::{decimal, push_decimal};
use crate::wire::{be_bytes, write_u64_be};
use vstd::prelude::*;
use vstd::string::{StrSliceExecFns, StringExecFns};
use vstd::utf8::encode_utf8;

verus! {

/// The kind of work a request asks the target to do.
#[derive(Clone, Copy, Debug, PartialEq, Eq, Structural)]
pub enum RequestType {
    /// Multiply an N x N matrix by its own transpose.
    Matmul,
    /// Fetch an iteration count from the storage tier, compute, post the result.
    Compute,
    /// Fetch a number of bytes from the storage tier and post them back.
    Io,
}

/// The checksum that every reply to an `Io` request carries.
pub const IO_CHECKSUM: u64 = 2000000;

/// The largest matrix size whose checksum fits in 64 bits.
pub const MAX_MATMUL_SIZE: u64 = 7131;

/// Entry `idx` of the row-major input matrix, which holds 1, 2, 3, ...
pub open spec fn input_cell(idx: nat) -> nat {
    idx + 1
}

/// The dot product of the first `k` columns of rows `i` and `j` of the
/// `n x n` input matrix.
pub open spec fn row_dot(n: nat, i: nat, j: nat, k: nat) -> nat
    decreases k,
{
    if k == 0 {
        0
    } else {
        row_dot(n, i, j, (k - 1) as nat) + input_cell(i * n + (k - 1) as nat) * input_cell(
            j * n + (k - 1) as nat,
        )
    }
}

/// Entry `(i, j)` of the input matrix times its transpose.
pub open spec fn product_cell(n: nat, i: nat, j: nat) -> nat {
    row_dot(n, i, j, n)
}

/// The checksum of a matrix multiplication of size `n`: the bottom-right entry
/// of the product.
pub open spec fn matmul_checksum(n: nat) -> nat
    recommends
        n > 0,
{
    product_cell(n, (n - 1) as nat, (n - 1) as nat)
}

/// Every term of a row product is at most the matching term of the last row
/// with itself, so every partial product is bounded by the checksum.
pub proof fn lemma_row_dot_bounded(n: nat, i: nat, j: nat, k: nat)
    requires
        i < n,
        j < n,
        k <= n,
    ensures
        row_dot(n, i, j, k) <= row_dot(n, (n - 1) as nat, (n - 1) as nat, k),
        row_dot(n, (n - 1) as nat, (n - 1) as nat, k) <= matmul_checksum(n),
    decreases n - k,
{
    lemma_row_dot_le(n, i, j, k);
    if k < n {
        lemma_row_dot_bounded(n, i, j, k + 1);
    }
}

proof fn lemma_row_dot_le(n: nat, i: nat, j: nat, k: nat)
    requires
        i < n,
        j < n,
        k <= n,
    ensures
        row_dot(n, i, j, k) <= row_dot(n, (n - 1) as nat, (n - 1) as nat, k),
    decreases k,
{
    if k > 0 {
        let c = (k - 1) as nat;
        let m = (n - 1) as nat;
        lemma_row_dot_le(n, i, j, c);
        assert(i * n <= m * n) by (nonlinear_arith)
            requires
                i <= m,
        ;
        assert(j * n <= m * n) by (nonlinear_arith)
            requires
                j <= m,
        ;
        let a = input_cell(i * n + c);
        let b = input_cell(j * n + c);
        let t = input_cell(m * n + c);
        assert(a * b <= t * t) by (nonlinear_arith)
            requires
                a <= t,
                b <= t,
        ;
    }
}

/// A checksum that fits in 64 bits belongs to a matrix whose cells can all be
/// indexed on a 32-bit machine.
pub proof fn lemma_checksum_bounds_size(n: nat)
    requires
        n > 0,
        matmul_checksum(n) <= u64::MAX,
    ensures
        n < 0x10000,
        n * n <= 0xffff_ffff,
{
    let m = (n - 1) as nat;
    let t = input_cell(m * n + m);
    assert(t == n * n) by (nonlinear_arith)
        requires
            t == m * n + m + 1,
            m == n - 1,
    ;
    assert(row_dot(n, m, m, n) == row_dot(n, m, m, m) + t * t);
    if n >= 0x10000 {
        assert(t * t > u64::MAX) by (nonlinear_arith)
            requires
                t == n * n,
                n >= 0x10000,
        ;
    }
    assert(n * n <= 0xffff_ffff) by (nonlinear_arith)
        requires
            n < 0x10000,
    ;
}

/// A partial row product of `k` terms is at most `k` times the square of the
/// largest cell, and at least `k` times the square of the first cell of the
/// last row.
proof fn lemma_last_row_range(n: nat, k: nat)
    requires
        n > 0,
        k <= n,
    ensures
        row_dot(n, (n - 1) as nat, (n - 1) as nat, k) <= k * ((n * n) * (n * n)),
        row_dot(n, (n - 1) as nat, (n - 1) as nat, k) >= k * ((n * n - n + 1) * (n * n - n + 1)),
    decreases k,
{
    if k > 0 {
        let m = (n - 1) as nat;
        let c = (k - 1) as nat;
        lemma_last_row_range(n, c);
        let t = input_cell(m * n + c);
        let hi = n * n;
        let lo = (n * n - n + 1) as nat;
        assert(m * n == n * n - n) by (nonlinear_arith)
            requires
                m == n - 1,
        ;
        assert(lo <= t <= hi);
        assert(t * t <= hi * hi) by (nonlinear_arith)
            requires
                t <= hi,
        ;
        assert(lo * lo <= t * t) by (nonlinear_arith)
            requires
                lo <= t,
        ;
        assert(k * (hi * hi) == c * (hi * hi) + hi * hi) by (nonlinear_arith)
            requires
                k == c + 1,
        ;
        assert(k * (lo * lo) == c * (lo * lo) + lo * lo) by (nonlinear_arith)
            requires
                k == c + 1,
        ;
    }
}

/// The checksum fits in 64 bits exactly for the sizes up to `MAX_MATMUL_SIZE`.
pub proof fn lemma_checksum_fits(n: nat)
    requires
        n > 0,
    ensures
        matmul_checksum(n) <= u64::MAX <==> n <= MAX_MATMUL_SIZE,
{
    lemma_last_row_range(n, n);
    let sq = n * n;
    if n <= MAX_MATMUL_SIZE {
        assert(sq <= 7131 * 7131) by (nonlinear_arith)
            requires
                sq == n * n,
                n <= 7131,
        ;
        assert(sq * sq <= (7131 * 7131) * (7131 * 7131)) by (nonlinear_arith)
            requires
                sq <= 7131 * 7131,
        ;
        assert(n * (sq * sq) <= 7131 * ((7131 * 7131) * (7131 * 7131))) by (nonlinear_arith)
            requires
                n <= 7131,
                sq * sq <= (7131 * 7131) * (7131 * 7131),
        ;
        assert(7131 * ((7131 * 7131) * (7131 * 7131)) == 18439629140666724651) by (nonlinear_arith);
    } else {
        let lo = sq - n + 1;
        assert(lo >= 7132 * 7131 + 1) by (nonlinear_arith)
            requires
                lo == n * n - n + 1,
                n >= 7132,
        ;
        assert(lo * lo >= (7132 * 7131 + 1) * (7132 * 7131 + 1)) by (nonlinear_arith)
            requires
                lo >= 7132 * 7131 + 1,
        ;
        assert(n * (lo * lo) >= 7132 * ((7132 * 7131 + 1) * (7132 * 7131 + 1)))
            by (nonlinear_arith)
            requires
                n >= 7132,
                lo * lo >= (7132 * 7131 + 1) * (7132 * 7131 + 1),
        ;
        assert(7132 * ((7132 * 7131 + 1) * (7132 * 7131 + 1)) == 18447388475744291068)
            by (nonlinear_arith);
    }
}

/// The address of the target for one workload: host, fixed port, whether the
/// request goes to the hot or the cold instance, and the kind's path.
pub open spec fn spec_url(kind: RequestType, ip: Seq<char>, is_hot: bool) -> Seq<char> {
    "http://"@ + ip + ":8080/"@ + (if is_hot {
        "hot"@
    } else {
        "cold"@
    }) + "/"@ + kind.path()
}

/// The two addresses on the storage tier that a composed request names: where
/// to fetch `amount` of `what`, and where to post the result.
pub open spec fn storage_uris(storage_ip: Seq<char>, what: Seq<char>, amount: u64) -> Seq<char> {
    "http://"@ + storage_ip + ":8000/"@ + what + "/"@ + decimal(amount as nat) + "::"@ + "http://"@
        + storage_ip + ":8000/post"@
}

/// Builds the text of `storage_uris`.
fn build_storage_uris(storage_ip: &str, what: &str, amount: u64) -> (text: String)
    ensures
        text@ == storage_uris(storage_ip@, what@, amount),
{
    let mut text = String::from_str("http://");
    text.append(storage_ip);
    text.append(":8000/");
    text.append(what);
    text.append("/");
    push_decimal(&mut text, amount);
    text.append("::");
    text.append("http://");
    text.append(storage_ip);
    text.append(":8000/post");
    text
}

impl RequestType {
    /// The last segment of the target's address for this kind.
    pub open spec fn path(self) -> Seq<char> {
        match self {
            RequestType::Matmul => "matmul"@,
            RequestType::Compute => "compute"@,
            RequestType::Io => "io"@,
        }
    }

    /// The bytes of the request body for this kind and size.
    pub open spec fn spec_body(self, input_size: u64, storage_ip: Seq<char>) -> Seq<u8> {
        match self {
            RequestType::Matmul => be_bytes(input_size) + be_bytes(input_size),
            RequestType::Compute => encode_utf8(
                storage_uris(storage_ip, "iterations"@, input_size),
            ),
            RequestType::Io => encode_utf8(storage_uris(storage_ip, "bytes"@, input_size)),
        }
    }

    /// The address to send a request of this kind to.
    pub fn url(&self, ip: &str, is_hot: bool) -> (url: String)
        ensures
            url@ == spec_url(*self, ip@, is_hot),
    {
        let mut url = String::from_str("http://");
        url.append(ip);
        url.append(":8080/");
        url.append(
            if is_hot {
                "hot"
            } else {
                "cold"
            },
        );
        url.append("/");
        url.append(
            match self {
                RequestType::Matmul => "matmul",
                RequestType::Compute => "compute",
                RequestType::Io => "io",
            },
        );
        url
    }

    /// The body of a request of this kind: the matrix dimensions as two
    /// big-endian integers, or the storage addresses that the target is to use.
    pub fn body(&self, input_size: u64, storage_ip: &str) -> (body: Vec<u8>)
        ensures
            body@ == self.spec_body(input_size, storage_ip@),
    {
        match self {
            RequestType::Matmul => {
                let mut body: Vec<u8> = Vec::new();
                write_u64_be(&mut body, input_size);
                write_u64_be(&mut body, input_size);
                body
            },
            RequestType::Compute => {
                let text = build_storage_uris(storage_ip, "iterations", input_size);
                text.as_str().as_bytes_vec()
            },
            RequestType::Io => {
                let text = build_storage_uris(storage_ip, "bytes", input_size);
                text.as_str().as_bytes_vec()
            },
        }
    }

    /// Tells whether `checksum` may be called for this kind and size.
    pub fn checksum_fits(&self, input_size: u64) -> (fits: bool)
        ensures
            fits == self.checksum_defined(input_size),
    {
        match self {
            RequestType::Matmul => {
                proof {
                    if input_size > 0 {
                        lemma_checksum_fits(input_size as nat);
                    }
                }
                0 < input_size && input_size <= MAX_MATMUL_SIZE
            },
            _ => true,
        }
    }

    /// Whether `checksum` is defined for this kind and size: a matrix needs at
    /// least one cell, and its checksum has to fit in 64 bits.
    pub open spec fn checksum_defined(self, input_size: u64) -> bool {
        self is Matmul ==> input_size > 0 && matmul_checksum(input_size as nat) <= u64::MAX
    }

    /// The checksum that a correct reply carries.
    pub open spec fn spec_checksum(self, input_size: u64) -> nat {
        match self {
            RequestType::Matmul => matmul_checksum(input_size as nat),
            RequestType::Compute => input_size as nat,
            RequestType::Io => IO_CHECKSUM as nat,
        }
    }

    /// Computes the checksum that a correct reply to a request of this kind and
    /// size carries. For a matrix multiplication the whole product is computed,
    /// as the target does, and its last entry is the checksum.
    pub fn checksum(&self, input_size: u64) -> (sum: u64)
        requires
            self.checksum_defined(input_size),
        ensures
            sum == self.spec_checksum(input_size),
    {
        match self {
            RequestType::Matmul => {
                let product = matmul_by_transpose(input_size);
                proof {
                    let last = input_size - 1;
                    assert(last * input_size + last == input_size * input_size - 1)
                        by (nonlinear_arith)
                        requires
                            last == input_size - 1,
                    ;
                    assert(product[last * input_size + last] == product_cell(
                        input_size as nat,
                        last as nat,
                        last as nat,
                    ));
                }
                product[product.len() - 1]
            },
            RequestType::Compute => input_size,
            RequestType::Io => IO_CHECKSUM,
        }
    }
}

/// Multiplies the `n x n` matrix that holds 1, 2, 3, ... in row-major order by
/// its own transpose and returns the product in row-major order.
pub fn matmul_by_transpose(n: u64) -> (product: Vec<u64>)
    requires
        n > 0,
        matmul_checksum(n as nat) <= u64::MAX,
    ensures
        product.len() == n * n,
        forall|i: int, j: int|
            0 <= i < n && 0 <= j < n ==> #[trigger] product[i * n + j] == product_cell(
                n as nat,
                i as nat,
                j as nat,
            ),
{
    proof {
        lemma_checksum_bounds_size(n as nat);
    }
    let size: usize = n as usize;
    let cells: usize = size * size;
    let mut in_mat: Vec<u64> = Vec::with_capacity(cells);
    let mut idx: usize = 0;
    while idx < cells
        invariant
            idx <= cells,
            cells <= 0xffff_ffff,
            in_mat.len() == idx,
            forall|c: int| 0 <= c < idx ==> #[trigger] in_mat[c] == input_cell(c as nat),
        decreases cells - idx,
    {
        in_mat.push(idx as u64 + 1);
        idx += 1;
    }
    let mut out_mat: Vec<u64> = vec![0u64; cells];
    let mut i: usize = 0;
    while i < size
        invariant
            i <= size,
            size == n,
            cells == size * size,
            cells <= 0xffff_ffff,
            matmul_checksum(n as nat) <= u64::MAX,
            in_mat.len() == cells,
            out_mat.len() == cells,
            forall|c: int| 0 <= c < cells ==> #[trigger] in_mat[c] == input_cell(c as nat),
            forall|r: int, j: int|
                0 <= r < i && 0 <= j < size ==> #[trigger] out_mat[r * size + j] == product_cell(
                    n as nat,
                    r as nat,
                    j as nat,
                ),
        decreases size - i,
    {
        let mut j: usize = 0;
        while j < size
            invariant
                i < size,
                j <= size,
                size == n,
                cells == size * size,
                cells <= 0xffff_ffff,
                matmul_checksum(n as nat) <= u64::MAX,
                in_mat.len() == cells,
                out_mat.len() == cells,
                forall|c: int| 0 <= c < cells ==> #[trigger] in_mat[c] == input_cell(c as nat),
                forall|r: int, q: int|
                    0 <= r < i && 0 <= q < size ==> #[trigger] out_mat[r * size + q]
                        == product_cell(n as nat, r as nat, q as nat),
                forall|q: int|
                    0 <= q < j ==> #[trigger] out_mat[i * size + q] == product_cell(
                        n as nat,
                        i as nat,
                        q as nat,
                    ),
            decreases size - j,
        {
            proof {
                lemma_cell_index(size as int, i as int, j as int);
            }
            let at: usize = i * size + j;
            let mut acc: u64 = 0;
            let mut k: usize = 0;
            while k < size
                invariant
                    i < size,
                    j < size,
                    k <= size,
                    size == n,
                    cells == size * size,
                    cells <= 0xffff_ffff,
                    matmul_checksum(n as nat) <= u64::MAX,
                    in_mat.len() == cells,
                    forall|c: int| 0 <= c < cells ==> #[trigger] in_mat[c] == input_cell(c as nat),
                    acc == row_dot(n as nat, i as nat, j as nat, k as nat),
                decreases size - k,
            {
                proof {
                    lemma_cell_index(size as int, i as int, k as int);
                    lemma_cell_index(size as int, j as int, k as int);
                    lemma_row_dot_bounded(n as nat, i as nat, j as nat, (k + 1) as nat);
                }
                let left: u64 = in_mat[i * size + k];
                let right: u64 = in_mat[j * size + k];
                acc = acc + left * right;
                k += 1;
            }
            let ghost before = out_mat@;
            out_mat.set(at, acc);
            proof {
                assert forall|r: int, q: int| 0 <= r < i && 0 <= q < size implies #[trigger] out_mat[r
                    * size + q] == product_cell(n as nat, r as nat, q as nat) by {
                    lemma_cell_index(size as int, r, q);
                    lemma_cell_distinct(size as int, r, q, i as int, j as int);
                    assert(out_mat[r * size + q] == before[r * size + q]);
                }
                assert forall|q: int| 0 <= q < j + 1 implies #[trigger] out_mat[i * size + q]
                    == product_cell(n as nat, i as nat, q as nat) by {
                    lemma_cell_index(size as int, i as int, q);
                    if q < j {
                        lemma_cell_distinct(size as int, i as int, q, i as int, j as int);
                        assert(out_mat[i * size + q] == before[i * size + q]);
                    }
                }
            }
            j += 1;
        }
        i += 1;
    }
    out_mat
}

/// A cell's row-major index lies inside the matrix.
proof fn lemma_cell_index(size: int, i: int, j: int)
    requires
        0 <= i < size,
        0 <= j < size,
    ensures
        0 <= i * size + j < size * size,
{
    assert(i * size + j < size * size) by (nonlinear_arith)
        requires
            0 <= i < size,
            0 <= j < size,
    ;
    assert(0 <= i * size) by (nonlinear_arith)
        requires
            0 <= i,
            0 <= size,
    ;
}

/// Two different cells have different row-major indices.
proof fn lemma_cell_distinct(size: int, i: int, j: int, r: int, q: int)
    requires
        0 <= i < size,
        0 <= j < size,
        0 <= r < size,
        0 <= q < size,
        i != r || j != q,
    ensures
        i * size + j != r * size + q,
{
    if i < r {
        assert(i * size + size <= r * size) by (nonlinear_arith)
            requires
                i + 1 <= r,
                size >= 0,
        ;
    } else if r < i {
        assert(r * size + size <= i * size) by (nonlinear_arith)
            requires
                r + 1 <= i,
                size >= 0,
        ;
    }
}

} // verus!
