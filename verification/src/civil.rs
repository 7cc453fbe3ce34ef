//! Calendar arithmetic for UTC timestamps: the civil date of a day count
//! since 1970-01-01 (after Howard Hinnant's days-to-civil algorithm).

use vstd::prelude::*;

verus! {

/// Year of a 400-year era, day of that era's March-based year, for a day of
/// the era.
pub open spec fn era_parts(doe: int) -> (int, int) {
    let yoe = (doe - doe / 1460 + doe / 36524 - doe / 146096) / 365;
    (yoe, doe - (365 * yoe + yoe / 4 - yoe / 100))
}

/// The civil date `(year, month, day)` of the day `days` after 1970-01-01.
pub open spec fn civil_from_days(days: nat) -> (int, int, int) {
    civil_date(days as int)
}

/// The proleptic Gregorian date `(year, month, day)` of the day `days`
/// after 1970-01-01, counting back for negative `days`.
pub open spec fn civil_date(days: int) -> (int, int, int) {
    let z = days + 719468;
    let era = z / 146097;
    let doe = z % 146097;
    let yoe = era_parts(doe as int).0;
    let doy = era_parts(doe as int).1;
    let mp = (5 * doy + 2) / 153;
    let d = doy - (153 * mp + 2) / 5 + 1;
    let m = if mp < 10 {
        mp + 3
    } else {
        mp - 9
    };
    let y = yoe + era * 400;
    (if m <= 2 {
        y + 1
    } else {
        y
    }, m, d)
}

proof fn lemma_year_of_era(doe: u64)
    requires
        doe < 146097,
    ensures
        ({
            let yoe = (doe - doe / 1460 + doe / 36524 - doe / 146096) / 365;
            &&& yoe < 400
            &&& 365 * yoe + yoe / 4 - yoe / 100 <= doe
            &&& doe - (365 * yoe + yoe / 4 - yoe / 100) <= 365
        }),
{
    assert({
        let yoe = (doe - doe / 1460 + doe / 36524 - doe / 146096) / 365;
        &&& yoe < 400
        &&& 365 * yoe + yoe / 4 - yoe / 100 <= doe
        &&& doe - (365 * yoe + yoe / 4 - yoe / 100) <= 365
    }) by (bit_vector)
        requires
            doe < 146097,
    ;
}

/// The civil date of the day `days` after 1970-01-01.
pub fn civil_from_days_exec(days: u64) -> (r: (u64, u64, u64))
    requires
        days < 0x1_0000_0000_0000,
    ensures
        (r.0 as int, r.1 as int, r.2 as int) == civil_from_days(days as nat),
        1 <= r.1 <= 12,
        1 <= r.2 <= 31,
{
    let z = days + 719468;
    let era = z / 146097;
    let doe = z - era * 146097;
    assert(doe == z % 146097) by (nonlinear_arith)
        requires
            era == z / 146097,
            doe == z - era * 146097,
    ;
    proof {
        lemma_year_of_era(doe);
    }
    let yoe = (doe - doe / 1460 + doe / 36524 - doe / 146096) / 365;
    let doy = doe - (365 * yoe + yoe / 4 - yoe / 100);
    let mp = (5 * doy + 2) / 153;
    assert(mp <= 11);
    assert((153 * mp + 2) / 5 <= doy) by (nonlinear_arith)
        requires
            mp == (5 * doy + 2) / 153,
    ;
    let d = doy - (153 * mp + 2) / 5 + 1;
    assert(d <= 31) by (nonlinear_arith)
        requires
            mp == (5 * doy + 2) / 153,
            d == doy - (153 * mp + 2) / 5 + 1,
    ;
    let m = if mp < 10 {
        mp + 3
    } else {
        mp - 9
    };
    let y = yoe + era * 400;
    let y = if m <= 2 {
        y + 1
    } else {
        y
    };
    (y, m, d)
}


/// `a` is an earlier civil date `(year, month, day)` than `b`.
pub open spec fn date_lt(a: (int, int, int), b: (int, int, int)) -> bool {
    a.0 < b.0 || (a.0 == b.0 && (a.1 < b.1 || (a.1 == b.1 && a.2 < b.2)))
}

/// One day later within a 400-year era: either the same March-based year,
/// one day further on, or the first day of the next year after the last
/// day of this one.
#[verifier::rlimit(100)]
proof fn lemma_era_step(doe: u32)
    requires
        doe < 146096,
    ensures
        ({
            let yoe = (doe - doe / 1460 + doe / 36524 - doe / 146096) / 365;
            let doy = doe - (365 * yoe + yoe / 4 - yoe / 100);
            let n = doe + 1;
            let yoe2 = (n - n / 1460 + n / 36524 - n / 146096) / 365;
            let doy2 = n - (365 * yoe2 + yoe2 / 4 - yoe2 / 100);
            (yoe2 == yoe && doy2 == doy + 1) || (yoe2 == yoe + 1 && doy2 == 0 && doy >= 364)
        }),
{
    assert({
        let yoe = (doe - doe / 1460 + doe / 36524 - doe / 146096) / 365;
        let doy = doe - (365 * yoe + yoe / 4 - yoe / 100);
        let n = doe + 1;
        let yoe2 = (n - n / 1460 + n / 36524 - n / 146096) / 365;
        let doy2 = n - (365 * yoe2 + yoe2 / 4 - yoe2 / 100);
        (yoe2 == yoe && doy2 == doy + 1) || (yoe2 == yoe + 1 && doy2 == 0 && doy >= 364)
    }) by (bit_vector)
        requires
            doe < 146096,
    ;
}

/// Month index (from March) and day of month for a day of a March-based
/// year, and how they move one day on.
proof fn lemma_day_of_year(doy: u32)
    requires
        doy <= 365,
    ensures
        ({
            let mp = (5 * doy + 2) / 153;
            let d = doy - (153 * mp + 2) / 5 + 1;
            &&& mp <= 11
            &&& 1 <= d <= 31
            &&& (153 * mp + 2) / 5 <= doy
            &&& doy >= 364 ==> mp == 11
            &&& doy == 0 ==> mp == 0 && d == 1
        }),
        doy < 365 ==> ({
            let mp = (5 * doy + 2) / 153;
            let d = doy - (153 * mp + 2) / 5 + 1;
            let n = doy + 1;
            let mp2 = (5 * n + 2) / 153;
            let d2 = n - (153 * mp2 + 2) / 5 + 1;
            (mp2 == mp && d2 == d + 1) || (mp2 == mp + 1 && d2 == 1)
        }),
{
    assert({
        let mp = (5 * doy + 2) / 153;
        let d = doy - (153 * mp + 2) / 5 + 1;
        &&& mp <= 11
        &&& 1 <= d <= 31
        &&& (153 * mp + 2) / 5 <= doy
        &&& doy >= 364 ==> mp == 11
        &&& doy == 0 ==> mp == 0 && d == 1
    }) by (bit_vector)
        requires
            doy <= 365,
    ;
    assert(doy < 365 ==> ({
        let mp = (5 * doy + 2) / 153;
        let d = doy - (153 * mp + 2) / 5 + 1;
        let n = doy + 1;
        let mp2 = (5 * n + 2) / 153;
        let d2 = n - (153 * mp2 + 2) / 5 + 1;
        (mp2 == mp && d2 == d + 1) || (mp2 == mp + 1 && d2 == 1)
    })) by (bit_vector);
}


/// Ranges of the date parts of a day count.
pub proof fn lemma_civil_ranges(n: nat)
    ensures
        civil_from_days(n).0 >= 0,
        1 <= civil_from_days(n).1 <= 12,
        1 <= civil_from_days(n).2 <= 31,
{
    let z: int = n as int + 719468;
    let doe: int = z % 146097;
    let d64 = doe as u64;
    assert(d64 == doe);
    lemma_year_of_era(d64);
    let doy = era_parts(doe).1;
    let d32 = doy as u32;
    assert(d32 == doy);
    lemma_day_of_year(d32);
}

/// The day after day `n` has a later civil date.
#[verifier::spinoff_prover]
proof fn lemma_civil_step(n: nat)
    ensures
        date_lt(civil_from_days(n), civil_from_days(n + 1)),
{
    let z: int = n as int + 719468;
    let era: int = z / 146097;
    let doe: int = z % 146097;
    vstd::arithmetic::div_mod::lemma_fundamental_div_mod(z, 146097);
    let a = civil_from_days(n);
    let b = civil_from_days(n + 1);
    let d64 = doe as u64;
    assert(d64 == doe);
    lemma_year_of_era(d64);
    let yoe = era_parts(doe).0;
    let doy = era_parts(doe).1;
    let y32 = doy as u32;
    assert(y32 == doy);
    lemma_day_of_year(y32);
    if doe < 146096 {
        vstd::arithmetic::div_mod::lemma_fundamental_div_mod_converse(
            z + 1,
            146097,
            era,
            doe + 1,
        );
        let e32 = doe as u32;
        assert(e32 == doe);
        lemma_era_step(e32);
        let e64 = (doe + 1) as u64;
        assert(e64 == doe + 1);
        lemma_year_of_era(e64);
        let yoe2 = era_parts(doe + 1).0;
        let doy2 = era_parts(doe + 1).1;
        let z32 = doy2 as u32;
        assert(z32 == doy2);
        lemma_day_of_year(z32);
        assert(b == ({
            let mp = (5 * doy2 + 2) / 153;
            let d = doy2 - (153 * mp + 2) / 5 + 1;
            let m = if mp < 10 {
                mp + 3
            } else {
                mp - 9
            };
            let y = yoe2 + era * 400;
            (if m <= 2 {
                y + 1
            } else {
                y
            }, m, d)
        }));
    } else {
        vstd::arithmetic::div_mod::lemma_fundamental_div_mod_converse(
            z + 1,
            146097,
            era + 1,
            0,
        );
        assert(doe == 146096);
        assert(yoe == 399);
        assert(doy == 365);
        assert(era_parts(0) == (0int, 0int));
    }
}

/// Later day counts have later civil dates.
pub proof fn lemma_civil_monotone(a: nat, b: nat)
    requires
        a < b,
    ensures
        date_lt(civil_from_days(a), civil_from_days(b)),
    decreases b - a,
{
    lemma_civil_step(a);
    if a + 1 < b {
        lemma_civil_monotone(a + 1, b);
    }
}


/// Whether `y` is a Gregorian leap year.
pub open spec fn is_leap(y: int) -> bool {
    y % 4 == 0 && (y % 100 != 0 || y % 400 == 0)
}

/// The number of days in month `m` of year `y`.
pub open spec fn days_in_month(y: int, m: int) -> int {
    if m == 2 {
        if is_leap(y) {
            29
        } else {
            28
        }
    } else if m == 4 || m == 6 || m == 9 || m == 11 {
        30
    } else {
        31
    }
}

/// The last day of a March-based year of an era falls in a leap year's
/// February only: day 365 exists when the following January's year is a
/// leap year.
proof fn lemma_long_year(doe: u32)
    requires
        doe < 146097,
    ensures
        ({
            let yoe = (doe - doe / 1460 + doe / 36524 - doe / 146096) / 365;
            let doy = doe - (365 * yoe + yoe / 4 - yoe / 100);
            doy == 365 ==> (yoe + 1) % 4 == 0 && ((yoe + 1) % 100 != 0 || yoe == 399)
        }),
{
    assert({
        let yoe = (doe - doe / 1460 + doe / 36524 - doe / 146096) / 365;
        let doy = doe - (365 * yoe + yoe / 4 - yoe / 100);
        doy == 365 ==> (yoe + 1) % 4 == 0 && ((yoe + 1) % 100 != 0 || yoe == 399)
    }) by (bit_vector)
        requires
            doe < 146097,
    ;
}

/// Month lengths within a March-based year: the thirty-day months end by
/// day 30, and February's day 29 is the year's day 365.
proof fn lemma_month_lengths(doy: u32)
    requires
        doy <= 365,
    ensures
        ({
            let mp = (5 * doy + 2) / 153;
            let d = doy - (153 * mp + 2) / 5 + 1;
            &&& (mp == 1 || mp == 3 || mp == 6 || mp == 8) ==> d <= 30
            &&& mp == 11 ==> d <= 29 && (d == 29 ==> doy == 365)
        }),
{
    assert({
        let mp = (5 * doy + 2) / 153;
        let d = doy - (153 * mp + 2) / 5 + 1;
        &&& (mp == 1 || mp == 3 || mp == 6 || mp == 8) ==> d <= 30
        &&& mp == 11 ==> d <= 29 && (d == 29 ==> doy == 365)
    }) by (bit_vector)
        requires
            doy <= 365,
    ;
}


/// Every day count names a real calendar date: a month from 1 to 12 and a
/// day within that month's length, February 29 only in leap years.
#[verifier::spinoff_prover]
pub proof fn law_civil_dates_are_real(n: nat)
    ensures
        1 <= civil_from_days(n).1 <= 12,
        1 <= civil_from_days(n).2 <= days_in_month(civil_from_days(n).0, civil_from_days(n).1),
{
    let z: int = n as int + 719468;
    let era: int = z / 146097;
    let doe: int = z % 146097;
    let d64 = doe as u64;
    assert(d64 == doe);
    lemma_year_of_era(d64);
    let d32 = doe as u32;
    assert(d32 == doe);
    lemma_long_year(d32);
    let yoe = era_parts(doe).0;
    let doy = era_parts(doe).1;
    let y32 = doy as u32;
    assert(y32 == doy);
    lemma_day_of_year(y32);
    lemma_month_lengths(y32);
    let c = civil_from_days(n);
    let mp = (5 * doy + 2) / 153;
    if mp == 11 && c.2 == 29 {
        assert(doy == 365);
        let y = yoe + era * 400 + 1;
        assert(c.0 == y);
        vstd::arithmetic::div_mod::lemma_mod_multiples_vanish(era * 100, yoe + 1, 4);
        vstd::arithmetic::div_mod::lemma_mod_multiples_vanish(era * 4, yoe + 1, 100);
        assert(4 * (era * 100) == era * 400) by (nonlinear_arith);
        assert(100 * (era * 4) == era * 400) by (nonlinear_arith);
        if yoe == 399 {
            vstd::arithmetic::div_mod::lemma_mod_multiples_vanish(era + 1, 0, 400);
            assert(400 * (era + 1) + 0 == y) by (nonlinear_arith)
                requires
                    y == yoe + era * 400 + 1,
                    yoe == 399,
            ;
        }
        assert(is_leap(y));
    }
}

/// The date after `c`: the next day of the month, else the first of the
/// next month, else New Year's Day of the next year.
pub open spec fn next_date(c: (int, int, int)) -> (int, int, int) {
    if c.2 < days_in_month(c.0, c.1) {
        (c.0, c.1, c.2 + 1)
    } else if c.1 < 12 {
        (c.0, c.1 + 1, 1)
    } else {
        (c.0 + 1, 1, 1)
    }
}

/// A month of a March-based year ends on its last day: when the next day
/// starts a new month, this day is the 30th of a thirty-day month or the
/// 31st of another, and February is not left this way.
proof fn lemma_month_end(doy: u32)
    requires
        doy < 365,
    ensures
        ({
            let mp = (5 * doy + 2) / 153;
            let d = doy - (153 * mp + 2) / 5 + 1;
            let n = doy + 1;
            let mp2 = (5 * n + 2) / 153;
            mp2 == mp + 1 ==> mp <= 10 && (if mp == 1 || mp == 3 || mp == 6 || mp == 8 {
                d == 30
            } else {
                d == 31
            })
        }),
{
    assert({
        let mp = (5 * doy + 2) / 153;
        let d = doy - (153 * mp + 2) / 5 + 1;
        let n = doy + 1;
        let mp2 = (5 * n + 2) / 153;
        mp2 == mp + 1 ==> mp <= 10 && (if mp == 1 || mp == 3 || mp == 6 || mp == 8 {
            d == 30
        } else {
            d == 31
        })
    }) by (bit_vector)
        requires
            doy < 365,
    ;
}

/// A March-based year that ends on its day 364 is followed by a February of
/// a common year.
#[verifier::rlimit(100)]
proof fn lemma_short_year(doe: u32)
    requires
        doe < 146096,
    ensures
        ({
            let yoe = (doe - doe / 1460 + doe / 36524 - doe / 146096) / 365;
            let doy = doe - (365 * yoe + yoe / 4 - yoe / 100);
            let n = doe + 1;
            let yoe2 = (n - n / 1460 + n / 36524 - n / 146096) / 365;
            yoe2 == yoe + 1 && doy == 364 ==> (yoe + 1) % 4 != 0 || (yoe + 1) % 100 == 0
        }),
{
    assert({
        let yoe = (doe - doe / 1460 + doe / 36524 - doe / 146096) / 365;
        let doy = doe - (365 * yoe + yoe / 4 - yoe / 100);
        let n = doe + 1;
        let yoe2 = (n - n / 1460 + n / 36524 - n / 146096) / 365;
        yoe2 == yoe + 1 && doy == 364 ==> (yoe + 1) % 4 != 0 || (yoe + 1) % 100 == 0
    }) by (bit_vector)
        requires
            doe < 146096,
    ;
}

/// Day zero is 1970-01-01.
pub proof fn law_civil_epoch()
    ensures
        civil_from_days(0) == (1970int, 1int, 1int),
{
    assert(era_parts(135080) == (369int, 306int));
    assert(civil_from_days(0) == (1970int, 1int, 1int));
}

/// Counting one day on moves the civil date to the next calendar date.
#[verifier::spinoff_prover]
pub proof fn law_civil_next_day(n: nat)
    ensures
        civil_from_days(n + 1) == next_date(civil_from_days(n)),
{
    let z: int = n as int + 719468;
    let era: int = z / 146097;
    let doe: int = z % 146097;
    vstd::arithmetic::div_mod::lemma_fundamental_div_mod(z, 146097);
    let a = civil_from_days(n);
    let b = civil_from_days(n + 1);
    let d64 = doe as u64;
    assert(d64 == doe);
    lemma_year_of_era(d64);
    let yoe = era_parts(doe).0;
    let doy = era_parts(doe).1;
    let y32 = doy as u32;
    assert(y32 == doy);
    lemma_day_of_year(y32);
    let mp = (5 * doy + 2) / 153;
    let y = yoe + era * 400 + 1;
    vstd::arithmetic::div_mod::lemma_mod_multiples_vanish(era * 100, yoe + 1, 4);
    vstd::arithmetic::div_mod::lemma_mod_multiples_vanish(era * 4, yoe + 1, 100);
    vstd::arithmetic::div_mod::lemma_mod_multiples_vanish(era, yoe + 1, 400);
    assert(4 * (era * 100) == era * 400) by (nonlinear_arith);
    assert(100 * (era * 4) == era * 400) by (nonlinear_arith);
    if doe < 146096 {
        vstd::arithmetic::div_mod::lemma_fundamental_div_mod_converse(
            z + 1,
            146097,
            era,
            doe + 1,
        );
        let e32 = doe as u32;
        assert(e32 == doe);
        lemma_era_step(e32);
        lemma_long_year(e32);
        lemma_short_year(e32);
        let e64 = (doe + 1) as u64;
        assert(e64 == doe + 1);
        lemma_year_of_era(e64);
        let yoe2 = era_parts(doe + 1).0;
        let doy2 = era_parts(doe + 1).1;
        let z32 = doy2 as u32;
        assert(z32 == doy2);
        lemma_day_of_year(z32);
        assert(b == ({
            let mp = (5 * doy2 + 2) / 153;
            let d = doy2 - (153 * mp + 2) / 5 + 1;
            let m = if mp < 10 {
                mp + 3
            } else {
                mp - 9
            };
            let y = yoe2 + era * 400;
            (if m <= 2 {
                y + 1
            } else {
                y
            }, m, d)
        }));
        if yoe2 == yoe {
            law_civil_dates_are_real(n + 1);
            if doy < 365 {
                lemma_month_end(y32);
            }
        } else {
            assert(mp == 11);
            if doy == 365 {
                assert(is_leap(y));
            } else {
                assert(doy == 364);
                assert(yoe + 1 < 400);
                vstd::arithmetic::div_mod::lemma_small_mod((yoe + 1) as nat, 400);
                assert(!is_leap(y));
            }
        }
    } else {
        vstd::arithmetic::div_mod::lemma_fundamental_div_mod_converse(
            z + 1,
            146097,
            era + 1,
            0,
        );
        assert(doe == 146096);
        assert(yoe == 399);
        assert(doy == 365);
        assert(mp == 11);
        assert(era_parts(0) == (0int, 0int));
        assert(is_leap(y));
    }
}

} // verus!
