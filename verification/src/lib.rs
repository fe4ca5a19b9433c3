//! Verified number-theory programs: sieves of primes, twin primes, Goldbach
//! pairs, Collatz records, amicable and perfect numbers, factorials,
//! Fibonacci numbers, squares, and the series behind e and pi.
pub mod arith;
pub mod twin_primes;
pub mod digits;
pub mod collatz;
pub mod amicable;
pub mod goldbach;
pub mod perfect_numbers;
pub mod fib;
pub mod e;
pub mod pi;
pub mod sq;
pub mod prime;
pub mod bignum;
pub mod factorial;
pub mod prime_powers;
pub mod prompt;
pub mod lucas_lehmer;
pub mod quadratic;
pub mod even_perfect;
