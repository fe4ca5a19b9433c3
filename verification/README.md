# math

Number-theory programs whose computing core is a library verified with
Verus: sieves of primes and twin primes, Goldbach pairs, Collatz
chain-length records, amicable and perfect numbers, factorials by the prime
swing, Fibonacci numbers, perfect squares, and e and pi by binary splitting.

## Layout

- `src/` — the verified library (`math`). Each module states its results
  over mathematical definitions (`primes_below`, `fib`, `factorial`,
  `series_p` / `series_q` / `series_t`, ...) and proves them. Highlights:
  - `prime_powers`: factorization into prime powers and Legendre's formula,
    from which `factorial::calculate_factorial` is proved to return `n!`;
  - `bignum`: arbitrary-size naturals (add, multiply, divide, square root,
    decimal text) with each operation proved against its arithmetic;
  - `e`, `pi`: binary splitting proved to compute the series accumulators,
    and the split law that lets halves be computed in parallel;
  - `lucas_lehmer`, `quadratic`, `even_perfect`: the Lucas-Lehmer test is
    proved to pass exactly for the Mersenne primes (both directions, the
    harder one through the Frobenius law in `Z[sqrt(3)]` and
    `Z[sqrt(-3)]`), and Euler's theorem that every even perfect number is
    `2^(p-1) (2^p - 1)`; so `generate_perfect_numbers` lists exactly the
    even perfect numbers up to its limit.
  The only unproved parts are small wrappers around `rayon` (parallel
  map, `join`, thread count) and `String::push`, each with its contract
  stated in its doc comment.
- `app/` — the command-line front end (`math <program> [N]`): argument
  parsing, prompts, progress lines, timing and file output.
- `tests/` — tests of the library's public functions.
