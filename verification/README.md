# GugolPi

GugolPi is a CPU benchmark whose runs check their own results: Pi digits against stored
SHA-256 digests, Radical square roots by squaring them back within a relative tolerance, and
Zeta prime counts and sums against a reference table.

## Layout

- `src/`: the library, verified with Verus. It holds configurations and size parsing, suites
  and their expansion into jobs, the segmented wheel sieve of Zeta (proved to count and sum
  exactly the primes of any stretch), the chunking of the work between threads, verdicts,
  integrity seals, report formatting, UTC dates, the command-line decisions and the desktop
  interface's session state.
- `tests/`: tests of the library on concrete values.
- `app/`: the `gugolpi` program around the library: argument parsing, threads, the
  floating-point FFT and Newton iterations, files, system probing, printing, and the desktop
  interface's commands and session driver.

SHA-256 comes from the `sha2` crate, called from the library through one trusted wrapper.
