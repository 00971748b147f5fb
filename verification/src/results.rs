//! Named factor sets of the factorizations.

use vstd::prelude::*;

use crate::error::OperationError;
use crate::space::BoundDynFactor;
use crate::spectrum::SectorSpectrum;
use crate::typed::{typed_from_bound_factor, typing_refusal, BoundTensorMap};

verus! {

/// Singular-value decomposition `t = u * s * vh`.
///
/// The order is one per coupled sector: within a sector the singular values on
/// the diagonal of `s` descend, and the columns of `u` and the rows of `vh`
/// follow them. `s` is square for the compact decomposition and rectangular
/// for the full one.
#[derive(Clone, Debug)]
pub struct Svd<T> {
    /// Left singular vectors, `codomain <- W`.
    pub u: T,
    /// Singular values, `W <- W'`.
    pub s: T,
    /// Adjoint right singular vectors, `W' <- domain`.
    pub vh: T,
}

/// Hermitian eigendecomposition `t = v * d * v^H` of an endomorphism.
///
/// Within a sector the real eigenvalues on the diagonal of `d` descend by
/// magnitude, equal magnitudes in the order in which they were found, and the
/// columns of `v` follow them.
#[derive(Clone, Debug)]
pub struct Eigh<T> {
    /// Eigenvalues, `W <- W`.
    pub d: T,
    /// Eigenvectors, `codomain <- W`.
    pub v: T,
}

/// General eigendecomposition `t * v = v * d` of an endomorphism, in the same
/// order as [`Eigh`].
#[derive(Clone, Debug)]
pub struct Eig<T> {
    /// Eigenvalues, `W <- W`.
    pub d: T,
    /// Eigenvectors, `codomain <- W`.
    pub v: T,
}

/// QR decomposition `t = q * r`.
#[derive(Clone, Debug)]
pub struct Qr<Q, R = Q> {
    /// The isometry, `codomain <- W`.
    pub q: Q,
    /// The upper triangular factor, `W <- domain`.
    pub r: R,
}

/// LQ decomposition `t = l * q`.
#[derive(Clone, Debug)]
pub struct Lq<L, Q = L> {
    /// The lower triangular factor, `codomain <- W`.
    pub l: L,
    /// The coisometry, `W <- domain`.
    pub q: Q,
}

/// Left polar decomposition `t = w * p` with a positive factor on the domain.
#[derive(Clone, Debug)]
pub struct LeftPolar<W, P = W> {
    /// The isometry, `codomain <- domain`.
    pub w: W,
    /// The positive factor, `domain <- domain`.
    pub p: P,
}

/// Right polar decomposition `t = p * wh` with a positive factor on the
/// codomain.
#[derive(Clone, Debug)]
pub struct RightPolar<P, Wh = P> {
    /// The positive factor, `codomain <- codomain`.
    pub p: P,
    /// The coisometry, `codomain <- domain`.
    pub wh: Wh,
}

/// Compact singular-value decomposition.
#[derive(Clone, Debug)]
pub struct SvdCompactDyn<D, V> {
    u: BoundDynFactor<D>,
    s: BoundDynFactor<D>,
    vh: BoundDynFactor<D>,
    singular_values: Vec<SectorSpectrum<V>>,
}

impl<D, V> SvdCompactDyn<D, V> {
    pub closed spec fn spec_u(self) -> BoundDynFactor<D> {
        self.u
    }

    pub closed spec fn spec_s(self) -> BoundDynFactor<D> {
        self.s
    }

    pub closed spec fn spec_vh(self) -> BoundDynFactor<D> {
        self.vh
    }

    pub closed spec fn spec_singular_values(self) -> Seq<SectorSpectrum<V>> {
        self.singular_values@
    }

    pub fn new(
        u: BoundDynFactor<D>,
        s: BoundDynFactor<D>,
        vh: BoundDynFactor<D>,
        singular_values: Vec<SectorSpectrum<V>>,
    ) -> (result: Self)
        ensures
            result.spec_u() == u,
            result.spec_s() == s,
            result.spec_vh() == vh,
            result.spec_singular_values() == singular_values@,
    {
        SvdCompactDyn { u, s, vh, singular_values }
    }

    pub fn u(&self) -> (part: &BoundDynFactor<D>)
        ensures
            *part == self.spec_u(),
    {
        &self.u
    }

    pub fn s(&self) -> (part: &BoundDynFactor<D>)
        ensures
            *part == self.spec_s(),
    {
        &self.s
    }

    pub fn vh(&self) -> (part: &BoundDynFactor<D>)
        ensures
            *part == self.spec_vh(),
    {
        &self.vh
    }

    pub fn singular_values(&self) -> (entries: &[SectorSpectrum<V>])
        ensures
            entries@ == self.spec_singular_values(),
    {
        self.singular_values.as_slice()
    }

    pub fn into_parts(self) -> (parts: (BoundDynFactor<D>, BoundDynFactor<D>, BoundDynFactor<D>, Vec<SectorSpectrum<V>>))
        ensures
            parts.0 == self.spec_u(),
            parts.1 == self.spec_s(),
            parts.2 == self.spec_vh(),
            parts.3@ == self.spec_singular_values(),
    {
        (self.u, self.s, self.vh, self.singular_values)
    }
}

/// [`SvdCompactDyn`] with leg counts in the type.
#[derive(Clone, Debug)]
pub struct SvdCompact<D, V, const NOUT: usize, const NIN: usize> {
    pub u: BoundTensorMap<D, NOUT, 1>,
    pub s: BoundTensorMap<D, 1, 1>,
    pub vh: BoundTensorMap<D, 1, NIN>,
    pub singular_values: Vec<SectorSpectrum<V>>,
}

impl<D, V> SvdCompactDyn<D, V> {
    /// The same factors with their leg counts in the type. The first factor
    /// that does not have them decides the refusal.
    pub fn typed<const NOUT: usize, const NIN: usize>(self) -> (result: Result<
        SvdCompact<D, V, NOUT, NIN>,
        OperationError,
    >)
        requires
            NOUT < usize::MAX,
            NIN < usize::MAX,
        ensures
            match (
                result,
                typing_refusal(self.spec_u(), NOUT as int, 1),
                typing_refusal(self.spec_s(), 1, 1),
                typing_refusal(self.spec_vh(), 1, NIN as int),
            ) {
                (Ok(typed), None, None, None) => {
                    &&& typed.u.is_typed(self.spec_u())
                    &&& typed.s.is_typed(self.spec_s())
                    &&& typed.vh.is_typed(self.spec_vh())
                    &&& typed.singular_values@ == self.spec_singular_values()
                },
                (Err(error), Some(expected), _, _) => error == expected,
                (Err(error), None, Some(expected), _) => error == expected,
                (Err(error), None, None, Some(expected)) => error == expected,
                _ => false,
            },
    {
        let u = match typed_from_bound_factor(self.u) {
            Ok(u) => u,
            Err(error) => {
                return Err(error);
            },
        };
        let s = match typed_from_bound_factor(self.s) {
            Ok(s) => s,
            Err(error) => {
                return Err(error);
            },
        };
        let vh = match typed_from_bound_factor(self.vh) {
            Ok(vh) => vh,
            Err(error) => {
                return Err(error);
            },
        };
        Ok(SvdCompact { u, s, vh, singular_values: self.singular_values })
    }
}

/// Truncated singular-value decomposition with the weight that it discards.
#[derive(Clone, Debug)]
pub struct SvdTruncDyn<D, V, E> {
    u: BoundDynFactor<D>,
    s: BoundDynFactor<D>,
    vh: BoundDynFactor<D>,
    singular_values: Vec<SectorSpectrum<V>>,
    error: E,
}

impl<D, V, E> SvdTruncDyn<D, V, E> {
    pub closed spec fn spec_u(self) -> BoundDynFactor<D> {
        self.u
    }

    pub closed spec fn spec_s(self) -> BoundDynFactor<D> {
        self.s
    }

    pub closed spec fn spec_vh(self) -> BoundDynFactor<D> {
        self.vh
    }

    pub closed spec fn spec_singular_values(self) -> Seq<SectorSpectrum<V>> {
        self.singular_values@
    }

    pub closed spec fn spec_error(self) -> E {
        self.error
    }

    pub fn new(
        u: BoundDynFactor<D>,
        s: BoundDynFactor<D>,
        vh: BoundDynFactor<D>,
        singular_values: Vec<SectorSpectrum<V>>,
        error: E,
    ) -> (result: Self)
        ensures
            result.spec_u() == u,
            result.spec_s() == s,
            result.spec_vh() == vh,
            result.spec_singular_values() == singular_values@,
            result.spec_error() == error,
    {
        SvdTruncDyn { u, s, vh, singular_values, error }
    }

    pub fn u(&self) -> (part: &BoundDynFactor<D>)
        ensures
            *part == self.spec_u(),
    {
        &self.u
    }

    pub fn s(&self) -> (part: &BoundDynFactor<D>)
        ensures
            *part == self.spec_s(),
    {
        &self.s
    }

    pub fn vh(&self) -> (part: &BoundDynFactor<D>)
        ensures
            *part == self.spec_vh(),
    {
        &self.vh
    }

    pub fn singular_values(&self) -> (entries: &[SectorSpectrum<V>])
        ensures
            entries@ == self.spec_singular_values(),
    {
        self.singular_values.as_slice()
    }

    pub fn error(&self) -> (part: &E)
        ensures
            *part == self.spec_error(),
    {
        &self.error
    }

    pub fn into_parts(self) -> (parts: (BoundDynFactor<D>, BoundDynFactor<D>, BoundDynFactor<D>, Vec<SectorSpectrum<V>>, E))
        ensures
            parts.0 == self.spec_u(),
            parts.1 == self.spec_s(),
            parts.2 == self.spec_vh(),
            parts.3@ == self.spec_singular_values(),
            parts.4 == self.spec_error(),
    {
        (self.u, self.s, self.vh, self.singular_values, self.error)
    }
}

/// [`SvdTruncDyn`] with leg counts in the type.
#[derive(Clone, Debug)]
pub struct SvdTrunc<D, V, E, const NOUT: usize, const NIN: usize> {
    pub u: BoundTensorMap<D, NOUT, 1>,
    pub s: BoundTensorMap<D, 1, 1>,
    pub vh: BoundTensorMap<D, 1, NIN>,
    pub singular_values: Vec<SectorSpectrum<V>>,
    pub error: E,
}

impl<D, V, E> SvdTruncDyn<D, V, E> {
    /// The same factors with their leg counts in the type. The first factor
    /// that does not have them decides the refusal.
    pub fn typed<const NOUT: usize, const NIN: usize>(self) -> (result: Result<
        SvdTrunc<D, V, E, NOUT, NIN>,
        OperationError,
    >)
        requires
            NOUT < usize::MAX,
            NIN < usize::MAX,
        ensures
            match (
                result,
                typing_refusal(self.spec_u(), NOUT as int, 1),
                typing_refusal(self.spec_s(), 1, 1),
                typing_refusal(self.spec_vh(), 1, NIN as int),
            ) {
                (Ok(typed), None, None, None) => {
                    &&& typed.u.is_typed(self.spec_u())
                    &&& typed.s.is_typed(self.spec_s())
                    &&& typed.vh.is_typed(self.spec_vh())
                    &&& typed.singular_values@ == self.spec_singular_values()
                    &&& typed.error == self.spec_error()
                },
                (Err(error), Some(expected), _, _) => error == expected,
                (Err(error), None, Some(expected), _) => error == expected,
                (Err(error), None, None, Some(expected)) => error == expected,
                _ => false,
            },
    {
        let u = match typed_from_bound_factor(self.u) {
            Ok(u) => u,
            Err(error) => {
                return Err(error);
            },
        };
        let s = match typed_from_bound_factor(self.s) {
            Ok(s) => s,
            Err(error) => {
                return Err(error);
            },
        };
        let vh = match typed_from_bound_factor(self.vh) {
            Ok(vh) => vh,
            Err(error) => {
                return Err(error);
            },
        };
        Ok(SvdTrunc { u, s, vh, singular_values: self.singular_values, error: self.error })
    }
}

/// Full singular-value decomposition: both outer factors are square in every
/// sector, and `s` is rectangular.
#[derive(Clone, Debug)]
pub struct SvdFullDyn<D, V> {
    u: BoundDynFactor<D>,
    s: BoundDynFactor<D>,
    vh: BoundDynFactor<D>,
    singular_values: Vec<SectorSpectrum<V>>,
}

impl<D, V> SvdFullDyn<D, V> {
    pub closed spec fn spec_u(self) -> BoundDynFactor<D> {
        self.u
    }

    pub closed spec fn spec_s(self) -> BoundDynFactor<D> {
        self.s
    }

    pub closed spec fn spec_vh(self) -> BoundDynFactor<D> {
        self.vh
    }

    pub closed spec fn spec_singular_values(self) -> Seq<SectorSpectrum<V>> {
        self.singular_values@
    }

    pub fn new(
        u: BoundDynFactor<D>,
        s: BoundDynFactor<D>,
        vh: BoundDynFactor<D>,
        singular_values: Vec<SectorSpectrum<V>>,
    ) -> (result: Self)
        ensures
            result.spec_u() == u,
            result.spec_s() == s,
            result.spec_vh() == vh,
            result.spec_singular_values() == singular_values@,
    {
        SvdFullDyn { u, s, vh, singular_values }
    }

    pub fn u(&self) -> (part: &BoundDynFactor<D>)
        ensures
            *part == self.spec_u(),
    {
        &self.u
    }

    pub fn s(&self) -> (part: &BoundDynFactor<D>)
        ensures
            *part == self.spec_s(),
    {
        &self.s
    }

    pub fn vh(&self) -> (part: &BoundDynFactor<D>)
        ensures
            *part == self.spec_vh(),
    {
        &self.vh
    }

    pub fn singular_values(&self) -> (entries: &[SectorSpectrum<V>])
        ensures
            entries@ == self.spec_singular_values(),
    {
        self.singular_values.as_slice()
    }

    pub fn into_parts(self) -> (parts: (BoundDynFactor<D>, BoundDynFactor<D>, BoundDynFactor<D>, Vec<SectorSpectrum<V>>))
        ensures
            parts.0 == self.spec_u(),
            parts.1 == self.spec_s(),
            parts.2 == self.spec_vh(),
            parts.3@ == self.spec_singular_values(),
    {
        (self.u, self.s, self.vh, self.singular_values)
    }
}

/// [`SvdFullDyn`] with leg counts in the type.
#[derive(Clone, Debug)]
pub struct SvdFull<D, V, const NOUT: usize, const NIN: usize> {
    pub u: BoundTensorMap<D, NOUT, 1>,
    pub s: BoundTensorMap<D, 1, 1>,
    pub vh: BoundTensorMap<D, 1, NIN>,
    pub singular_values: Vec<SectorSpectrum<V>>,
}

impl<D, V> SvdFullDyn<D, V> {
    /// The same factors with their leg counts in the type. The first factor
    /// that does not have them decides the refusal.
    pub fn typed<const NOUT: usize, const NIN: usize>(self) -> (result: Result<
        SvdFull<D, V, NOUT, NIN>,
        OperationError,
    >)
        requires
            NOUT < usize::MAX,
            NIN < usize::MAX,
        ensures
            match (
                result,
                typing_refusal(self.spec_u(), NOUT as int, 1),
                typing_refusal(self.spec_s(), 1, 1),
                typing_refusal(self.spec_vh(), 1, NIN as int),
            ) {
                (Ok(typed), None, None, None) => {
                    &&& typed.u.is_typed(self.spec_u())
                    &&& typed.s.is_typed(self.spec_s())
                    &&& typed.vh.is_typed(self.spec_vh())
                    &&& typed.singular_values@ == self.spec_singular_values()
                },
                (Err(error), Some(expected), _, _) => error == expected,
                (Err(error), None, Some(expected), _) => error == expected,
                (Err(error), None, None, Some(expected)) => error == expected,
                _ => false,
            },
    {
        let u = match typed_from_bound_factor(self.u) {
            Ok(u) => u,
            Err(error) => {
                return Err(error);
            },
        };
        let s = match typed_from_bound_factor(self.s) {
            Ok(s) => s,
            Err(error) => {
                return Err(error);
            },
        };
        let vh = match typed_from_bound_factor(self.vh) {
            Ok(vh) => vh,
            Err(error) => {
                return Err(error);
            },
        };
        Ok(SvdFull { u, s, vh, singular_values: self.singular_values })
    }
}

/// Hermitian eigendecomposition.
#[derive(Clone, Debug)]
pub struct EighFullDyn<D, V> {
    v: BoundDynFactor<D>,
    eigenvalues: Vec<SectorSpectrum<V>>,
}

impl<D, V> EighFullDyn<D, V> {
    pub closed spec fn spec_v(self) -> BoundDynFactor<D> {
        self.v
    }

    pub closed spec fn spec_eigenvalues(self) -> Seq<SectorSpectrum<V>> {
        self.eigenvalues@
    }

    pub fn new(
        v: BoundDynFactor<D>,
        eigenvalues: Vec<SectorSpectrum<V>>,
    ) -> (result: Self)
        ensures
            result.spec_v() == v,
            result.spec_eigenvalues() == eigenvalues@,
    {
        EighFullDyn { v, eigenvalues }
    }

    pub fn v(&self) -> (part: &BoundDynFactor<D>)
        ensures
            *part == self.spec_v(),
    {
        &self.v
    }

    pub fn eigenvalues(&self) -> (entries: &[SectorSpectrum<V>])
        ensures
            entries@ == self.spec_eigenvalues(),
    {
        self.eigenvalues.as_slice()
    }

    pub fn into_parts(self) -> (parts: (BoundDynFactor<D>, Vec<SectorSpectrum<V>>))
        ensures
            parts.0 == self.spec_v(),
            parts.1@ == self.spec_eigenvalues(),
    {
        (self.v, self.eigenvalues)
    }
}

/// [`EighFullDyn`] with leg counts in the type, and with the diagonal tensor of the
/// eigenvalues.
#[derive(Clone, Debug)]
pub struct EighFull<D, V, const NOUT: usize, const NIN: usize> {
    pub d: BoundTensorMap<D, 1, 1>,
    pub v: BoundTensorMap<D, NOUT, 1>,
    pub eigenvalues: Vec<SectorSpectrum<V>>,
}

impl<D, V> EighFullDyn<D, V> {
    /// The same vectors with their leg counts in the type, beside the diagonal
    /// `d`, which is looked at first.
    pub fn typed<const NOUT: usize, const NIN: usize>(self, d: BoundDynFactor<D>) -> (result:
        Result<EighFull<D, V, NOUT, NIN>, OperationError>)
        requires
            NOUT < usize::MAX,
        ensures
            match (
                result,
                typing_refusal(d, 1, 1),
                typing_refusal(self.spec_v(), NOUT as int, 1),
            ) {
                (Ok(typed), None, None) => {
                    &&& typed.d.is_typed(d)
                    &&& typed.v.is_typed(self.spec_v())
                    &&& typed.eigenvalues@ == self.spec_eigenvalues()
                },
                (Err(error), Some(expected), _) => error == expected,
                (Err(error), None, Some(expected)) => error == expected,
                _ => false,
            },
    {
        let d = match typed_from_bound_factor(d) {
            Ok(d) => d,
            Err(error) => {
                return Err(error);
            },
        };
        match typed_from_bound_factor(self.v) {
            Ok(v) => Ok(EighFull { d, v, eigenvalues: self.eigenvalues }),
            Err(error) => Err(error),
        }
    }
}

/// Truncated hermitian eigendecomposition with the weight that it
/// discards.
#[derive(Clone, Debug)]
pub struct EighTruncDyn<D, V, E> {
    v: BoundDynFactor<D>,
    eigenvalues: Vec<SectorSpectrum<V>>,
    error: E,
}

impl<D, V, E> EighTruncDyn<D, V, E> {
    pub closed spec fn spec_v(self) -> BoundDynFactor<D> {
        self.v
    }

    pub closed spec fn spec_eigenvalues(self) -> Seq<SectorSpectrum<V>> {
        self.eigenvalues@
    }

    pub closed spec fn spec_error(self) -> E {
        self.error
    }

    pub fn new(
        v: BoundDynFactor<D>,
        eigenvalues: Vec<SectorSpectrum<V>>,
        error: E,
    ) -> (result: Self)
        ensures
            result.spec_v() == v,
            result.spec_eigenvalues() == eigenvalues@,
            result.spec_error() == error,
    {
        EighTruncDyn { v, eigenvalues, error }
    }

    pub fn v(&self) -> (part: &BoundDynFactor<D>)
        ensures
            *part == self.spec_v(),
    {
        &self.v
    }

    pub fn eigenvalues(&self) -> (entries: &[SectorSpectrum<V>])
        ensures
            entries@ == self.spec_eigenvalues(),
    {
        self.eigenvalues.as_slice()
    }

    pub fn error(&self) -> (part: &E)
        ensures
            *part == self.spec_error(),
    {
        &self.error
    }

    pub fn into_parts(self) -> (parts: (BoundDynFactor<D>, Vec<SectorSpectrum<V>>, E))
        ensures
            parts.0 == self.spec_v(),
            parts.1@ == self.spec_eigenvalues(),
            parts.2 == self.spec_error(),
    {
        (self.v, self.eigenvalues, self.error)
    }
}

/// [`EighTruncDyn`] with leg counts in the type, and with the diagonal tensor of the
/// eigenvalues.
#[derive(Clone, Debug)]
pub struct EighTrunc<D, V, E, const NOUT: usize, const NIN: usize> {
    pub d: BoundTensorMap<D, 1, 1>,
    pub v: BoundTensorMap<D, NOUT, 1>,
    pub eigenvalues: Vec<SectorSpectrum<V>>,
    pub error: E,
}

impl<D, V, E> EighTruncDyn<D, V, E> {
    /// The same vectors with their leg counts in the type, beside the diagonal
    /// `d`, which is looked at first.
    pub fn typed<const NOUT: usize, const NIN: usize>(self, d: BoundDynFactor<D>) -> (result:
        Result<EighTrunc<D, V, E, NOUT, NIN>, OperationError>)
        requires
            NOUT < usize::MAX,
        ensures
            match (
                result,
                typing_refusal(d, 1, 1),
                typing_refusal(self.spec_v(), NOUT as int, 1),
            ) {
                (Ok(typed), None, None) => {
                    &&& typed.d.is_typed(d)
                    &&& typed.v.is_typed(self.spec_v())
                    &&& typed.eigenvalues@ == self.spec_eigenvalues()
                    &&& typed.error == self.spec_error()
                },
                (Err(error), Some(expected), _) => error == expected,
                (Err(error), None, Some(expected)) => error == expected,
                _ => false,
            },
    {
        let d = match typed_from_bound_factor(d) {
            Ok(d) => d,
            Err(error) => {
                return Err(error);
            },
        };
        match typed_from_bound_factor(self.v) {
            Ok(v) => Ok(EighTrunc { d, v, eigenvalues: self.eigenvalues, error: self.error }),
            Err(error) => Err(error),
        }
    }
}

/// General eigendecomposition.
#[derive(Clone, Debug)]
pub struct EigFullDyn<D, V> {
    v: BoundDynFactor<D>,
    eigenvalues: Vec<SectorSpectrum<V>>,
}

impl<D, V> EigFullDyn<D, V> {
    pub closed spec fn spec_v(self) -> BoundDynFactor<D> {
        self.v
    }

    pub closed spec fn spec_eigenvalues(self) -> Seq<SectorSpectrum<V>> {
        self.eigenvalues@
    }

    pub fn new(
        v: BoundDynFactor<D>,
        eigenvalues: Vec<SectorSpectrum<V>>,
    ) -> (result: Self)
        ensures
            result.spec_v() == v,
            result.spec_eigenvalues() == eigenvalues@,
    {
        EigFullDyn { v, eigenvalues }
    }

    pub fn v(&self) -> (part: &BoundDynFactor<D>)
        ensures
            *part == self.spec_v(),
    {
        &self.v
    }

    pub fn eigenvalues(&self) -> (entries: &[SectorSpectrum<V>])
        ensures
            entries@ == self.spec_eigenvalues(),
    {
        self.eigenvalues.as_slice()
    }

    pub fn into_parts(self) -> (parts: (BoundDynFactor<D>, Vec<SectorSpectrum<V>>))
        ensures
            parts.0 == self.spec_v(),
            parts.1@ == self.spec_eigenvalues(),
    {
        (self.v, self.eigenvalues)
    }
}

/// [`EigFullDyn`] with leg counts in the type, and with the diagonal tensor of the
/// eigenvalues.
#[derive(Clone, Debug)]
pub struct EigFull<D, V, const NOUT: usize, const NIN: usize> {
    pub d: BoundTensorMap<D, 1, 1>,
    pub v: BoundTensorMap<D, NOUT, 1>,
    pub eigenvalues: Vec<SectorSpectrum<V>>,
}

impl<D, V> EigFullDyn<D, V> {
    /// The same vectors with their leg counts in the type, beside the diagonal
    /// `d`, which is looked at first.
    pub fn typed<const NOUT: usize, const NIN: usize>(self, d: BoundDynFactor<D>) -> (result:
        Result<EigFull<D, V, NOUT, NIN>, OperationError>)
        requires
            NOUT < usize::MAX,
        ensures
            match (
                result,
                typing_refusal(d, 1, 1),
                typing_refusal(self.spec_v(), NOUT as int, 1),
            ) {
                (Ok(typed), None, None) => {
                    &&& typed.d.is_typed(d)
                    &&& typed.v.is_typed(self.spec_v())
                    &&& typed.eigenvalues@ == self.spec_eigenvalues()
                },
                (Err(error), Some(expected), _) => error == expected,
                (Err(error), None, Some(expected)) => error == expected,
                _ => false,
            },
    {
        let d = match typed_from_bound_factor(d) {
            Ok(d) => d,
            Err(error) => {
                return Err(error);
            },
        };
        match typed_from_bound_factor(self.v) {
            Ok(v) => Ok(EigFull { d, v, eigenvalues: self.eigenvalues }),
            Err(error) => Err(error),
        }
    }
}

/// Truncated general eigendecomposition with the weight that it
/// discards.
#[derive(Clone, Debug)]
pub struct EigTruncDyn<D, V, E> {
    v: BoundDynFactor<D>,
    eigenvalues: Vec<SectorSpectrum<V>>,
    error: E,
}

impl<D, V, E> EigTruncDyn<D, V, E> {
    pub closed spec fn spec_v(self) -> BoundDynFactor<D> {
        self.v
    }

    pub closed spec fn spec_eigenvalues(self) -> Seq<SectorSpectrum<V>> {
        self.eigenvalues@
    }

    pub closed spec fn spec_error(self) -> E {
        self.error
    }

    pub fn new(
        v: BoundDynFactor<D>,
        eigenvalues: Vec<SectorSpectrum<V>>,
        error: E,
    ) -> (result: Self)
        ensures
            result.spec_v() == v,
            result.spec_eigenvalues() == eigenvalues@,
            result.spec_error() == error,
    {
        EigTruncDyn { v, eigenvalues, error }
    }

    pub fn v(&self) -> (part: &BoundDynFactor<D>)
        ensures
            *part == self.spec_v(),
    {
        &self.v
    }

    pub fn eigenvalues(&self) -> (entries: &[SectorSpectrum<V>])
        ensures
            entries@ == self.spec_eigenvalues(),
    {
        self.eigenvalues.as_slice()
    }

    pub fn error(&self) -> (part: &E)
        ensures
            *part == self.spec_error(),
    {
        &self.error
    }

    pub fn into_parts(self) -> (parts: (BoundDynFactor<D>, Vec<SectorSpectrum<V>>, E))
        ensures
            parts.0 == self.spec_v(),
            parts.1@ == self.spec_eigenvalues(),
            parts.2 == self.spec_error(),
    {
        (self.v, self.eigenvalues, self.error)
    }
}

/// [`EigTruncDyn`] with leg counts in the type, and with the diagonal tensor of the
/// eigenvalues.
#[derive(Clone, Debug)]
pub struct EigTrunc<D, V, E, const NOUT: usize, const NIN: usize> {
    pub d: BoundTensorMap<D, 1, 1>,
    pub v: BoundTensorMap<D, NOUT, 1>,
    pub eigenvalues: Vec<SectorSpectrum<V>>,
    pub error: E,
}

impl<D, V, E> EigTruncDyn<D, V, E> {
    /// The same vectors with their leg counts in the type, beside the diagonal
    /// `d`, which is looked at first.
    pub fn typed<const NOUT: usize, const NIN: usize>(self, d: BoundDynFactor<D>) -> (result:
        Result<EigTrunc<D, V, E, NOUT, NIN>, OperationError>)
        requires
            NOUT < usize::MAX,
        ensures
            match (
                result,
                typing_refusal(d, 1, 1),
                typing_refusal(self.spec_v(), NOUT as int, 1),
            ) {
                (Ok(typed), None, None) => {
                    &&& typed.d.is_typed(d)
                    &&& typed.v.is_typed(self.spec_v())
                    &&& typed.eigenvalues@ == self.spec_eigenvalues()
                    &&& typed.error == self.spec_error()
                },
                (Err(error), Some(expected), _) => error == expected,
                (Err(error), None, Some(expected)) => error == expected,
                _ => false,
            },
    {
        let d = match typed_from_bound_factor(d) {
            Ok(d) => d,
            Err(error) => {
                return Err(error);
            },
        };
        match typed_from_bound_factor(self.v) {
            Ok(v) => Ok(EigTrunc { d, v, eigenvalues: self.eigenvalues, error: self.error }),
            Err(error) => Err(error),
        }
    }
}

} // verus!
