# rs-dpkg

A small dpkg companion: it reads the dpkg `status` file and shows what it
records of a package, and holds the logic for reading `.deb` archives and
removing packages.

* `src/` is the library, verified with Verus:
  * `text` – splitting, joining, trimming and searching character sequences;
  * `strmap` – a string-keyed map that keeps each key once;
  * `rfc822` – reading and writing RFC 822 style control data;
  * `number` – reading decimal and hexadecimal digits;
  * `util` – file extensions, MD5 checksums, the `Conffiles` field, file lists;
  * `status` – entries of the `status` file;
  * `deb` – which archive members to read, and what removing a package does;
  * `warning` – warnings in colour;
  * `error` – the library's errors.
* `app/` is the program: file and archive I/O, decompression, running the
  maintainer scripts.
* `tests/` runs the library on concrete inputs.
